//! An instruction optimiser for a rotary alphabet machine: thirty zones
//! arranged in a ring, each holding one rune (a space or a capital letter,
//! also a ring of twenty-seven), a pointer that moves left and right around
//! the zones, and a trigger that speaks the rune under the pointer. The
//! machine emits one instruction character per elementary action and picks,
//! for each rune to speak, the zone and rotation direction that cost the
//! fewest instructions.

use vstd::arithmetic::div_mod::lemma_fundamental_div_mod;
use vstd::arithmetic::div_mod::lemma_fundamental_div_mod_converse_mod;
use vstd::arithmetic::div_mod::lemma_mod_division_less_than_divisor;
use vstd::prelude::*;

use crate::text::push_char;

verus! {

/// A rune: the blank or a capital letter, the 27 values a zone can hold.
pub open spec fn spec_is_rune(c: char) -> bool {
    c == ' ' || ('A' <= c && c <= 'Z')
}

/// The position of a rune on its ring: blank is 0, 'A' is 1, …, 'Z' is 26.
pub open spec fn spec_pos(c: char) -> int {
    if c == ' ' {
        0
    } else {
        c as int - 'A' as int + 1
    }
}

/// A small step of modular arithmetic: adding one either steps up inside
/// the ring or wraps to zero.
proof fn lemma_mod_succ(x: int, m: int)
    requires
        m > 0,
    ensures
        (x + 1) % m == if x % m == m - 1 {
            0int
        } else {
            x % m + 1
        },
{
    lemma_fundamental_div_mod(x, m);
    lemma_mod_division_less_than_divisor(x, m);
    let q = x / m;
    let p = x % m;
    if p == m - 1 {
        assert(x + 1 == (q + 1) * m + 0) by (nonlinear_arith)
            requires
                x == m * q + p,
                p == m - 1,
        ;
        lemma_fundamental_div_mod_converse_mod(x + 1, m, q + 1, 0);
    } else {
        assert(x + 1 == q * m + (p + 1)) by (nonlinear_arith)
            requires
                x == m * q + p,
        ;
        lemma_fundamental_div_mod_converse_mod(x + 1, m, q, p + 1);
    }
}

/// The mirror step: subtracting one steps down inside the ring or wraps to
/// the top.
proof fn lemma_mod_pred(x: int, m: int)
    requires
        m > 0,
    ensures
        (x - 1) % m == if x % m == 0 {
            m - 1
        } else {
            x % m - 1
        },
{
    lemma_fundamental_div_mod(x, m);
    lemma_mod_division_less_than_divisor(x, m);
    let q = x / m;
    let p = x % m;
    if p == 0 {
        assert(x - 1 == (q - 1) * m + (m - 1)) by (nonlinear_arith)
            requires
                x == m * q + p,
                p == 0,
        ;
        lemma_fundamental_div_mod_converse_mod(x - 1, m, q - 1, m - 1);
    } else {
        assert(x - 1 == q * m + (p - 1)) by (nonlinear_arith)
            requires
                x == m * q + p,
        ;
        lemma_fundamental_div_mod_converse_mod(x - 1, m, q, p - 1);
    }
}

/// A value already inside the ring is its own remainder.
proof fn lemma_mod_small(x: int, m: int)
    requires
        0 <= x < m,
    ensures
        x % m == x,
{
    lemma_fundamental_div_mod_converse_mod(x, m, 0, x);
}

/// Walking `(b - a) % m` steps up from `a` lands on `b`.
proof fn lemma_mod_walk(a: int, b: int, m: int)
    requires
        m > 0,
        0 <= a < m,
        0 <= b < m,
    ensures
        (a + (b - a) % m) % m == b,
        (a - (a - b) % m) % m == b,
{
    lemma_fundamental_div_mod(b - a, m);
    lemma_mod_division_less_than_divisor(b - a, m);
    let q1 = (b - a) / m;
    let r1 = (b - a) % m;
    assert(a + r1 == (-q1) * m + b) by (nonlinear_arith)
        requires
            b - a == m * q1 + r1,
    ;
    lemma_fundamental_div_mod_converse_mod(a + r1, m, -q1, b);
    lemma_fundamental_div_mod(a - b, m);
    lemma_mod_division_less_than_divisor(a - b, m);
    let q2 = (a - b) / m;
    let r2 = (a - b) % m;
    assert(a - r2 == q2 * m + b) by (nonlinear_arith)
        requires
            a - b == m * q2 + r2,
    ;
    lemma_fundamental_div_mod_converse_mod(a - r2, m, q2, b);
}

/// A wrapped difference computed by branching equals the modular one.
proof fn lemma_wrap_diff(a: int, b: int, m: int)
    requires
        m > 0,
        0 <= a < m,
        0 <= b < m,
    ensures
        (b - a) % m == if b >= a {
            b - a
        } else {
            m + b - a
        },
{
    if b >= a {
        lemma_mod_small(b - a, m);
    } else {
        lemma_fundamental_div_mod_converse_mod(b - a, m, -1, m + b - a);
    }
}

/// Runes with the same ring position are the same rune.
proof fn lemma_rune_eq(a: char, b: char)
    requires
        spec_is_rune(a),
        spec_is_rune(b),
        spec_pos(a) == spec_pos(b),
    ensures
        a == b,
{
    if a != ' ' && b != ' ' {
        assert(a as int == b as int);
    }
}

/// The fewest rune turns from position `a` to position `b`, in either
/// direction around the ring of 27.
pub open spec fn spec_char_dist(a: int, b: int) -> int {
    let f = (b - a) % 27;
    let bk = (a - b) % 27;
    if f <= bk {
        f
    } else {
        bk
    }
}

/// The fewest pointer moves from zone `p` to zone `z`, in either direction
/// around the ring of 30.
pub open spec fn spec_move_cost(p: int, z: int) -> int {
    let r = (z - p) % 30;
    let l = (p - z) % 30;
    if r <= l {
        r
    } else {
        l
    }
}

/// The instructions it would cost `s` to speak `target` from zone `z`:
/// pointer moves there plus rune turns once there.
pub open spec fn spec_zone_cost(s: State, z: int, target: char) -> int {
    spec_move_cost(s.pointer as int, z) + spec_char_dist(
        spec_pos(s.zones@[z]),
        spec_pos(target),
    )
}

/// The position of a rune on its ring: blank is 0, 'A' is 1, …, 'Z' is 26.
pub fn pos(c: char) -> (r: u8)
    requires
        spec_is_rune(c),
    ensures
        r as int == spec_pos(c),
        r < 27,
{
    if c == ' ' {
        0
    } else {
        (c as u8) - 65 + 1
    }
}

/// The machine: its ring of zones, the pointer, the text spoken so far and
/// the instructions emitted so far.
pub struct State {
    pub zones: Vec<char>,
    pub pointer: usize,
    pub created_text: String,
    pub instructions: String,
}

impl State {
    /// Thirty zones, each holding a rune, with the pointer on one of them.
    pub open spec fn wf(&self) -> bool {
        &&& self.zones@.len() == 30
        &&& self.pointer < 30
        &&& forall|i: int| 0 <= i < 30 ==> spec_is_rune(#[trigger] self.zones@[i])
    }

    /// A fresh machine: every zone blank, the pointer on zone 0, nothing
    /// spoken, nothing emitted.
    pub fn new() -> (r: State)
        ensures
            r.wf(),
            r.pointer == 0,
            r.created_text@ == Seq::<char>::empty(),
            r.instructions@ == Seq::<char>::empty(),
            forall|i: int| 0 <= i < 30 ==> r.zones@[i] == ' ',
    {
        let mut zones: Vec<char> = Vec::new();
        let mut i: usize = 0;
        while i < 30
            invariant
                i <= 30,
                zones@.len() == i,
                forall|j: int| 0 <= j < i ==> zones@[j] == ' ',
            decreases 30 - i,
        {
            zones.push(' ');
            i += 1;
        }
        State { zones, pointer: 0, created_text: String::new(), instructions: String::new() }
    }

    /// Moves the pointer `steps` zones to the left, wrapping at zone 0, and
    /// emits one `<` per step.
    pub fn left(&mut self, steps: usize)
        requires
            old(self).wf(),
        ensures
            final(self).wf(),
            final(self).zones == old(self).zones,
            final(self).created_text == old(self).created_text,
            final(self).pointer as int == (old(self).pointer - steps as int) % 30,
            final(self).instructions@ == old(self).instructions@ + Seq::new(
                steps as nat,
                |i: int| '<',
            ),
    {
        proof {
            lemma_mod_small(old(self).pointer as int, 30);
        }
        let mut k: usize = 0;
        while k < steps
            invariant
                k <= steps,
                old(self).wf(),
                self.zones == old(self).zones,
                self.created_text == old(self).created_text,
                self.pointer < 30,
                self.pointer as int == (old(self).pointer - k as int) % 30,
                self.instructions@ == old(self).instructions@ + Seq::new(k as nat, |i: int| '<'),
            decreases steps - k,
        {
            proof {
                lemma_mod_pred(old(self).pointer - k as int, 30);
            }
            if self.pointer == 0 {
                self.pointer = self.zones.len() - 1;
            } else {
                self.pointer -= 1;
            }
            push_char(&mut self.instructions, '<');
            k += 1;
            proof {
                assert(self.instructions@ =~= old(self).instructions@ + Seq::new(
                    k as nat,
                    |i: int| '<',
                ));
            }
        }
    }

    /// Moves the pointer `steps` zones to the right, wrapping after the last
    /// zone, and emits one `>` per step.
    pub fn right(&mut self, steps: usize)
        requires
            old(self).wf(),
        ensures
            final(self).wf(),
            final(self).zones == old(self).zones,
            final(self).created_text == old(self).created_text,
            final(self).pointer as int == (old(self).pointer + steps as int) % 30,
            final(self).instructions@ == old(self).instructions@ + Seq::new(
                steps as nat,
                |i: int| '>',
            ),
    {
        proof {
            lemma_mod_small(old(self).pointer as int, 30);
        }
        let mut k: usize = 0;
        while k < steps
            invariant
                k <= steps,
                old(self).wf(),
                self.zones == old(self).zones,
                self.created_text == old(self).created_text,
                self.pointer < 30,
                self.pointer as int == (old(self).pointer + k as int) % 30,
                self.instructions@ == old(self).instructions@ + Seq::new(k as nat, |i: int| '>'),
            decreases steps - k,
        {
            proof {
                lemma_mod_succ(old(self).pointer + k as int, 30);
            }
            proof {
                assert(self.zones@.len() == 30);
            }
            let ghost pb = (old(self).pointer + k as int) % 30;
            self.pointer = (self.pointer + 1) % self.zones.len();
            proof {
                assert(self.pointer as int == (pb + 1) % 30);
                if pb == 29 {
                    assert(30int % 30 == 0);
                    assert(self.pointer == 0);
                } else {
                    lemma_mod_small(pb + 1, 30);
                }
            }
            push_char(&mut self.instructions, '>');
            k += 1;
            proof {
                assert(self.instructions@ =~= old(self).instructions@ + Seq::new(
                    k as nat,
                    |i: int| '>',
                ));
            }
        }
    }

    /// Turns the rune under the pointer `steps` positions forward on its
    /// ring (blank to 'A', 'Z' back to blank), emitting one `+` per step.
    /// A non-positive count does nothing.
    pub fn increment(&mut self, steps: i32)
        requires
            old(self).wf(),
        ensures
            final(self).wf(),
            final(self).pointer == old(self).pointer,
            final(self).created_text == old(self).created_text,
            final(self).zones@.len() == 30,
            forall|i: int|
                0 <= i < 30 && i != old(self).pointer ==> final(self).zones@[i] == old(
                    self,
                ).zones@[i],
            spec_pos(final(self).zones@[old(self).pointer as int]) == (spec_pos(
                old(self).zones@[old(self).pointer as int],
            ) + (if steps >= 0 {
                steps as int
            } else {
                0int
            })) % 27,
            final(self).instructions@ == old(self).instructions@ + Seq::new(
                (if steps >= 0 {
                    steps as nat
                } else {
                    0nat
                }),
                |i: int| '+',
            ),
    {
        proof {
            lemma_mod_small(spec_pos(old(self).zones@[old(self).pointer as int]), 27);
        }
        let ghost p0 = spec_pos(old(self).zones@[old(self).pointer as int]);
        let mut k: i32 = 0;
        while k < steps
            invariant
                0 <= k,
                steps >= 0 ==> k <= steps,
                steps < 0 ==> k == 0,
                old(self).wf(),
                self.wf(),
                self.pointer == old(self).pointer,
                self.created_text == old(self).created_text,
                self.zones@.len() == 30,
                forall|i: int|
                    0 <= i < 30 && i != old(self).pointer ==> self.zones@[i] == old(
                        self,
                    ).zones@[i],
                spec_pos(self.zones@[old(self).pointer as int]) == (p0 + k as int) % 27,
                self.instructions@ == old(self).instructions@ + Seq::new(k as nat, |i: int| '+'),
            decreases steps - k,
        {
            proof {
                lemma_mod_succ(p0 + k as int, 27);
                lemma_mod_division_less_than_divisor(p0 + k as int, 27);
            }
            let z = self.zones[self.pointer];
            let nz = if z == ' ' {
                'A'
            } else if z == 'Z' {
                ' '
            } else {
                ((z as u8) + 1) as char
            };
            self.zones[self.pointer] = nz;
            push_char(&mut self.instructions, '+');
            k += 1;
            proof {
                assert(spec_is_rune(nz));
                assert(self.instructions@ =~= old(self).instructions@ + Seq::new(
                    k as nat,
                    |i: int| '+',
                ));
            }
        }
    }

    /// Turns the rune under the pointer `steps` positions backward on its
    /// ring (blank to 'Z', 'A' back to blank), emitting one `-` per step.
    /// A non-positive count does nothing.
    pub fn decrement(&mut self, steps: i32)
        requires
            old(self).wf(),
        ensures
            final(self).wf(),
            final(self).pointer == old(self).pointer,
            final(self).created_text == old(self).created_text,
            final(self).zones@.len() == 30,
            forall|i: int|
                0 <= i < 30 && i != old(self).pointer ==> final(self).zones@[i] == old(
                    self,
                ).zones@[i],
            spec_pos(final(self).zones@[old(self).pointer as int]) == (spec_pos(
                old(self).zones@[old(self).pointer as int],
            ) - (if steps >= 0 {
                steps as int
            } else {
                0int
            })) % 27,
            final(self).instructions@ == old(self).instructions@ + Seq::new(
                (if steps >= 0 {
                    steps as nat
                } else {
                    0nat
                }),
                |i: int| '-',
            ),
    {
        proof {
            lemma_mod_small(spec_pos(old(self).zones@[old(self).pointer as int]), 27);
        }
        let ghost p0 = spec_pos(old(self).zones@[old(self).pointer as int]);
        let mut k: i32 = 0;
        while k < steps
            invariant
                0 <= k,
                steps >= 0 ==> k <= steps,
                steps < 0 ==> k == 0,
                old(self).wf(),
                self.wf(),
                self.pointer == old(self).pointer,
                self.created_text == old(self).created_text,
                self.zones@.len() == 30,
                forall|i: int|
                    0 <= i < 30 && i != old(self).pointer ==> self.zones@[i] == old(
                        self,
                    ).zones@[i],
                spec_pos(self.zones@[old(self).pointer as int]) == (p0 - k as int) % 27,
                self.instructions@ == old(self).instructions@ + Seq::new(k as nat, |i: int| '-'),
            decreases steps - k,
        {
            proof {
                lemma_mod_pred(p0 - k as int, 27);
                lemma_mod_division_less_than_divisor(p0 - k as int, 27);
            }
            let z = self.zones[self.pointer];
            let nz = if z == ' ' {
                'Z'
            } else if z == 'A' {
                ' '
            } else {
                ((z as u8) - 1) as char
            };
            self.zones[self.pointer] = nz;
            push_char(&mut self.instructions, '-');
            k += 1;
            proof {
                assert(spec_is_rune(nz));
                assert(self.instructions@ =~= old(self).instructions@ + Seq::new(
                    k as nat,
                    |i: int| '-',
                ));
            }
        }
    }

    /// Speaks the rune under the pointer: appends it to the created text and
    /// emits one `.`.
    pub fn trigger(&mut self)
        requires
            old(self).wf(),
        ensures
            final(self).wf(),
            final(self).pointer == old(self).pointer,
            final(self).zones == old(self).zones,
            final(self).created_text@ == old(self).created_text@.push(
                old(self).zones@[old(self).pointer as int],
            ),
            final(self).instructions@ == old(self).instructions@.push('.'),
    {
        let z = self.zones[self.pointer];
        push_char(&mut self.created_text, z);
        push_char(&mut self.instructions, '.');
    }

    /// Moves the pointer to the cheapest zone for speaking `target_char`:
    /// the zone minimising pointer moves plus rune turns, the lowest-indexed
    /// one on a tie, reached by whichever rotation is shorter (rightward on
    /// a tie).
    pub fn move_to_optimal_zone(&mut self, target_char: char)
        requires
            old(self).wf(),
            spec_is_rune(target_char),
        ensures
            final(self).wf(),
            final(self).zones == old(self).zones,
            final(self).created_text == old(self).created_text,
            final(self).pointer < 30,
            forall|j: int|
                0 <= j < 30 ==> spec_zone_cost(*old(self), final(self).pointer as int, target_char)
                    <= #[trigger] spec_zone_cost(*old(self), j, target_char),
            forall|j: int|
                0 <= j < final(self).pointer ==> #[trigger] spec_zone_cost(*old(self), j, target_char)
                    > spec_zone_cost(*old(self), final(self).pointer as int, target_char),
            final(self).instructions@.len() == old(self).instructions@.len() + spec_move_cost(
                old(self).pointer as int,
                final(self).pointer as int,
            ),
            final(self).instructions@.subrange(0, old(self).instructions@.len() as int) == old(
                self,
            ).instructions@,
            ({
                let z = final(self).pointer as int;
                let p0 = old(self).pointer as int;
                let rs = (z - p0) % 30;
                let ls = (p0 - z) % 30;
                if rs <= ls {
                    final(self).instructions@ == old(self).instructions@ + Seq::new(
                        rs as nat,
                        |i: int| '>',
                    )
                } else {
                    final(self).instructions@ == old(self).instructions@ + Seq::new(
                        ls as nat,
                        |i: int| '<',
                    )
                }
            }),
    {
        let target_pos = pos(target_char);
        let mut best_total: usize = usize::MAX;
        let mut best_zone: usize = self.pointer;
        let mut zone: usize = 0;
        while zone < 30
            invariant
                old(self).wf(),
                self.zones == old(self).zones,
                self.pointer == old(self).pointer,
                self.created_text == old(self).created_text,
                self.instructions == old(self).instructions,
                zone <= 30,
                target_pos as int == spec_pos(target_char),
                target_pos < 27,
                best_zone < 30,
                zone == 0 ==> best_total == usize::MAX && best_zone == old(self).pointer,
                zone > 0 ==> {
                    &&& best_zone < zone
                    &&& best_total == spec_zone_cost(*old(self), best_zone as int, target_char)
                    &&& forall|j: int|
                        0 <= j < zone ==> best_total <= #[trigger] spec_zone_cost(
                            *old(self),
                            j,
                            target_char,
                        )
                    &&& forall|j: int|
                        0 <= j < best_zone ==> #[trigger] spec_zone_cost(*old(self), j, target_char)
                            > best_total
                },
            decreases 30 - zone,
        {
            let current_pos = pos(self.zones[zone]);
            let fwd: usize = if target_pos >= current_pos {
                (target_pos - current_pos) as usize
            } else {
                27 + target_pos as usize - current_pos as usize
            };
            let bwd: usize = if current_pos >= target_pos {
                (current_pos - target_pos) as usize
            } else {
                27 + current_pos as usize - target_pos as usize
            };
            let char_distance = if fwd <= bwd {
                fwd
            } else {
                bwd
            };
            let right_steps = if zone >= self.pointer {
                zone - self.pointer
            } else {
                30 + zone - self.pointer
            };
            let left_steps = if self.pointer >= zone {
                self.pointer - zone
            } else {
                30 + self.pointer - zone
            };
            let movement = if right_steps <= left_steps {
                right_steps
            } else {
                left_steps
            };
            let total = movement + char_distance;
            proof {
                lemma_wrap_diff(spec_pos(self.zones@[zone as int]), target_pos as int, 27);
                lemma_wrap_diff(target_pos as int, spec_pos(self.zones@[zone as int]), 27);
                lemma_wrap_diff(self.pointer as int, zone as int, 30);
                lemma_wrap_diff(zone as int, self.pointer as int, 30);
                assert(total as int == spec_zone_cost(*old(self), zone as int, target_char));
            }
            if total < best_total {
                best_total = total;
                best_zone = zone;
            }
            zone += 1;
        }
        let right_steps = if best_zone >= self.pointer {
            best_zone - self.pointer
        } else {
            30 + best_zone - self.pointer
        };
        let left_steps = if self.pointer >= best_zone {
            self.pointer - best_zone
        } else {
            30 + self.pointer - best_zone
        };
        proof {
            lemma_wrap_diff(self.pointer as int, best_zone as int, 30);
            lemma_wrap_diff(best_zone as int, self.pointer as int, 30);
            lemma_mod_walk(self.pointer as int, best_zone as int, 30);
        }
        if right_steps <= left_steps {
            self.right(right_steps);
        } else {
            self.left(left_steps);
        }
        proof {
            lemma_mod_division_less_than_divisor(self.pointer as int, 30);
            assert(self.pointer == best_zone);
            assert(self.instructions@.subrange(0, old(self).instructions@.len() as int)
                =~= old(self).instructions@);
        }
    }

    /// Speaks `target_char` as cheaply as the machine knows how: moves to
    /// the best zone, turns its rune the shorter way round (forward on a
    /// tie) until it matches, and triggers. The spoken text grows by exactly
    /// that character.
    pub fn optimize_movement(&mut self, target_char: char)
        requires
            old(self).wf(),
            spec_is_rune(target_char),
        ensures
            final(self).wf(),
            final(self).created_text@ == old(self).created_text@.push(target_char),
            final(self).pointer < 30,
            final(self).zones@[final(self).pointer as int] == target_char,
            ({
                let z = final(self).pointer as int;
                let p0 = old(self).pointer as int;
                let rs = (z - p0) % 30;
                let ls = (p0 - z) % 30;
                let movement = if rs <= ls {
                    Seq::new(rs as nat, |i: int| '>')
                } else {
                    Seq::new(ls as nat, |i: int| '<')
                };
                let cp = spec_pos(old(self).zones@[z]);
                let tp = spec_pos(target_char);
                let fwd = (tp - cp) % 27;
                let bwd = (cp - tp) % 27;
                let turns = if fwd <= bwd {
                    Seq::new(fwd as nat, |i: int| '+')
                } else {
                    Seq::new(bwd as nat, |i: int| '-')
                };
                final(self).instructions@ == old(self).instructions@ + movement + turns + seq![
                    '.',
                ]
            }),
    {
        self.move_to_optimal_zone(target_char);
        let current_char = self.zones[self.pointer];
        let target_pos = pos(target_char);
        let current_pos = pos(current_char);
        let forward_distance: i32 = if target_pos >= current_pos {
            (target_pos - current_pos) as i32
        } else {
            27 + target_pos as i32 - current_pos as i32
        };
        let backward_distance: i32 = if current_pos >= target_pos {
            (current_pos - target_pos) as i32
        } else {
            27 + current_pos as i32 - target_pos as i32
        };
        proof {
            lemma_wrap_diff(spec_pos(current_char), spec_pos(target_char), 27);
            lemma_wrap_diff(spec_pos(target_char), spec_pos(current_char), 27);
            lemma_mod_walk(spec_pos(current_char), spec_pos(target_char), 27);
        }
        if forward_distance <= backward_distance {
            self.increment(forward_distance);
        } else {
            self.decrement(backward_distance);
        }
        proof {
            assert(spec_pos(self.zones@[self.pointer as int]) == spec_pos(target_char));
            lemma_rune_eq(self.zones@[self.pointer as int], target_char);
        }
        self.trigger();
        proof {
            let z = self.pointer as int;
            let p0 = old(self).pointer as int;
            let rs = (z - p0) % 30;
            let ls = (p0 - z) % 30;
            let movement = if rs <= ls {
                Seq::new(rs as nat, |i: int| '>')
            } else {
                Seq::new(ls as nat, |i: int| '<')
            };
            let cp = spec_pos(old(self).zones@[z]);
            let tp = spec_pos(target_char);
            let fwd = (tp - cp) % 27;
            let bwd = (cp - tp) % 27;
            let turns = if fwd <= bwd {
                Seq::new(fwd as nat, |i: int| '+')
            } else {
                Seq::new(bwd as nat, |i: int| '-')
            };
            assert(self.instructions@ =~= old(self).instructions@ + movement + turns + seq!['.']);
        }
    }
}

} // verus!
