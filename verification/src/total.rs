//! A search for the smallest arithmetic expression reaching a target: how
//! many copies of one base number, combined with the four integer operators
//! (division only where exact), are needed to write the target. The search
//! grows the set of reachable values size by size and stops at twelve copies.

use vstd::prelude::*;

use crate::text::int_to_string;
use crate::text::push_char;
use crate::text::spec_int_str;

verus! {

use vstd::string::StringExecFns;

/// The exact integer quotient of `a` by `b`, or `None` where `b` is zero or
/// does not divide `a`. Computed over unsigned magnitudes so that machine
/// division agrees with the mathematical quotient for every sign.
fn div_exact(a: i32, b: i32) -> (r: Option<i32>)
    requires
        !(a == i32::MIN && b == -1),
    ensures
        r is Some <==> (b != 0 && a as int % b as int == 0),
        r matches Some(v) ==> v as int == a as int / b as int,
{
    if b == 0 {
        return None;
    }
    let ua: u32 = if a < 0 {
        (-(a as i64)) as u32
    } else {
        a as u32
    };
    let ub: u32 = if b < 0 {
        (-(b as i64)) as u32
    } else {
        b as u32
    };
    if ua % ub != 0 {
        proof {
            if a as int % b as int == 0 {
                vstd::arithmetic::div_mod::lemma_fundamental_div_mod(a as int, b as int);
                let q = a as int / b as int;
                assert(a as int == b as int * q);
                let uq = if (a < 0) != (b < 0) {
                    -q
                } else {
                    q
                };
                assert(ua as int == ub as int * uq) by (nonlinear_arith)
                    requires
                        a as int == b as int * q,
                        ua == if a < 0 {
                            -(a as int)
                        } else {
                            a as int
                        },
                        ub == if b < 0 {
                            -(b as int)
                        } else {
                            b as int
                        },
                        uq == if (a < 0) != (b < 0) {
                            -q
                        } else {
                            q
                        },
                ;
                assert(ua as int % ub as int == 0) by (nonlinear_arith)
                    requires
                        ub > 0,
                        ua as int == ub as int * uq,
                ;
            }
        }
        return None;
    }
    let k = ua / ub;
    proof {
        vstd::arithmetic::div_mod::lemma_fundamental_div_mod(ua as int, ub as int);
        assert(ua as int == ub as int * k);
        if !((a < 0) != (b < 0)) {
            assert(k <= i32::MAX) by (nonlinear_arith)
                requires
                    ub > 0,
                    k == ua as int / ub as int,
                    ua as int == ub as int * k,
                    ua <= 0x8000_0000u32,
                    !(ua == 0x8000_0000u32 && ub == 1),
            ;
        }
    }
    let q: i32 = if (a < 0) != (b < 0) {
        (-(k as i64)) as i32
    } else {
        k as i32
    };
    proof {
        assert(a as int == b as int * q) by (nonlinear_arith)
            requires
                ua as int == ub as int * k,
                ua == if a < 0 {
                    -(a as int)
                } else {
                    a as int
                },
                ub == if b < 0 {
                    -(b as int)
                } else {
                    b as int
                },
                q == if (a < 0) != (b < 0) {
                    -(k as int)
                } else {
                    k as int
                },
        ;
        assert(a as int % b as int == 0 && a as int / b as int == q) by (nonlinear_arith)
            requires
                b != 0,
                a as int == b as int * q,
        ;
    }
    Some(q)
}

/// One of the four integer operators.
#[derive(Clone, Copy, Debug, PartialEq, Eq, Structural)]
pub enum Operator {
    Add,
    Sub,
    Mul,
    Div,
}

impl Operator {
    /// What applying the operator yields over the unbounded integers:
    /// division only succeeds when the divisor is non-zero and divides the
    /// dividend exactly.
    pub open spec fn spec_apply(self, a: int, b: int) -> Option<int> {
        match self {
            Operator::Add => Some(a + b),
            Operator::Sub => Some(a - b),
            Operator::Mul => Some(a * b),
            Operator::Div => if b == 0 || a % b != 0 {
                None
            } else {
                Some(a / b)
            },
        }
    }

    /// The four operators, in their fixed enumeration order.
    pub fn values() -> (r: Vec<Operator>)
        ensures
            r@ =~= seq![Operator::Add, Operator::Sub, Operator::Mul, Operator::Div],
    {
        let mut v: Vec<Operator> = Vec::new();
        v.push(Operator::Add);
        v.push(Operator::Sub);
        v.push(Operator::Mul);
        v.push(Operator::Div);
        v
    }

    /// Applies the operator to machine integers whose result stays in
    /// range. `None` reports an inexact or impossible division.
    pub fn apply(&self, a: i32, b: i32) -> (r: Option<i32>)
        requires
            *self == Operator::Add ==> i32::MIN <= a + b <= i32::MAX,
            *self == Operator::Sub ==> i32::MIN <= a - b <= i32::MAX,
            *self == Operator::Mul ==> i32::MIN <= a * b <= i32::MAX,
            *self == Operator::Div ==> !(a == i32::MIN && b == -1),
        ensures
            r is Some <==> self.spec_apply(a as int, b as int) is Some,
            r matches Some(v) ==> self.spec_apply(a as int, b as int) == Some(v as int),
    {
        match self {
            Operator::Add => Some(a + b),
            Operator::Sub => Some(a - b),
            Operator::Mul => Some(a * b),
            Operator::Div => div_exact(a, b),
        }
    }

    /// Whether swapping the operands never changes the result.
    pub fn is_commutative(&self) -> (r: bool)
        ensures
            r == (*self == Operator::Add || *self == Operator::Mul),
    {
        match self {
            Operator::Add | Operator::Mul => true,
            Operator::Sub | Operator::Div => false,
        }
    }

    /// The operator's written sign.
    pub fn symbol(&self) -> (r: char)
        ensures
            r == self.spec_symbol(),
    {
        match self {
            Operator::Add => '+',
            Operator::Sub => '-',
            Operator::Mul => '*',
            Operator::Div => '/',
        }
    }

    /// The operator's written sign.
    pub open spec fn spec_symbol(self) -> char {
        match self {
            Operator::Add => '+',
            Operator::Sub => '-',
            Operator::Mul => '*',
            Operator::Div => '/',
        }
    }
}

/// Applies the operator, reporting `None` where the mathematical result
/// leaves the machine range (or a division is inexact). Promises only the
/// soundness of a `Some`: the search uses it and never builds on a value
/// the operator did not really produce.
fn checked_apply(op: Operator, a: i32, b: i32) -> (r: Option<i32>)
    ensures
        r matches Some(v) ==> op.spec_apply(a as int, b as int) == Some(v as int),
{
    match op {
        Operator::Add => {
            let w = a as i64 + b as i64;
            if w < i32::MIN as i64 || w > i32::MAX as i64 {
                None
            } else {
                Some(w as i32)
            }
        },
        Operator::Sub => {
            let w = a as i64 - b as i64;
            if w < i32::MIN as i64 || w > i32::MAX as i64 {
                None
            } else {
                Some(w as i32)
            }
        },
        Operator::Mul => {
            proof {
                assert(-0x4000_0000_0000_0000 <= a as int * b as int <= 0x4000_0000_0000_0000)
                    by (nonlinear_arith)
                    requires
                        -0x8000_0000 <= a as int <= 0x7fff_ffff,
                        -0x8000_0000 <= b as int <= 0x7fff_ffff,
                ;
            }
            let w = a as i64 * b as i64;
            if w < i32::MIN as i64 || w > i32::MAX as i64 {
                None
            } else {
                Some(w as i32)
            }
        },
        Operator::Div => {
            if a == i32::MIN && b == -1 {
                None
            } else {
                div_exact(a, b)
            }
        },
    }
}

/// One application of an operator to two already-reached values.
pub struct Operation {
    pub op: Operator,
    pub left: i32,
    pub right: i32,
}

/// A reached value: the value itself, how many copies of the base number
/// its expression uses, and the final operation (`None` for the base number
/// itself).
pub struct Expression {
    pub value: i32,
    pub size: i32,
    pub op: Option<Operation>,
}

impl Operation {
    /// An operation from its parts.
    pub fn new(op: Operator, left: i32, right: i32) -> (r: Operation)
        ensures
            r == (Operation { op, left, right }),
    {
        Operation { op, left, right }
    }

    /// Applies the recorded operator to the recorded operands.
    pub fn apply(&self) -> (r: Option<i32>)
        requires
            self.op == Operator::Add ==> i32::MIN <= self.left + self.right <= i32::MAX,
            self.op == Operator::Sub ==> i32::MIN <= self.left - self.right <= i32::MAX,
            self.op == Operator::Mul ==> i32::MIN <= self.left * self.right <= i32::MAX,
            self.op == Operator::Div ==> !(self.left == i32::MIN && self.right == -1),
        ensures
            r is Some <==> self.op.spec_apply(self.left as int, self.right as int) is Some,
            r matches Some(v) ==> self.op.spec_apply(self.left as int, self.right as int) == Some(
                v as int,
            ),
    {
        self.op.apply(self.left, self.right)
    }

    /// Renders `(left op right)`, fetching both operands' expressions from
    /// the collection. `fuel` bounds the rendering depth (the search always
    /// has an expression's size at hand for it); an exhausted fuel or a
    /// missing operand renders as the empty string.
    pub fn to_string(&self, known_values: &KnownValues, fuel: u32) -> (r: String)
        ensures
            r@ == spec_render_node(known_values.entries@, *self, fuel as nat),
        decreases fuel,
    {
        if fuel == 0 {
            return String::new();
        }
        let l = known_values.get(self.left);
        let r = known_values.get(self.right);
        if l.is_none() || r.is_none() {
            return String::new();
        }
        let le = l.unwrap();
        let re = r.unwrap();
        let left_str = match &le.op {
            Option::None => int_to_string(le.value),
            Option::Some(o2) => o2.to_string(known_values, fuel - 1),
        };
        let right_str = match &re.op {
            Option::None => int_to_string(re.value),
            Option::Some(o2) => o2.to_string(known_values, fuel - 1),
        };
        let mut out = String::new();
        push_char(&mut out, '(');
        out.append(left_str.as_str());
        push_char(&mut out, ' ');
        push_char(&mut out, self.op.symbol());
        push_char(&mut out, ' ');
        out.append(right_str.as_str());
        push_char(&mut out, ')');
        proof {
            assert(out@ =~= spec_render_node(known_values.entries@, *self, fuel as nat));
        }
        out
    }
}

impl Expression {
    /// Renders the expression: a bare number for the base, else the
    /// parenthesised operation, with operands fetched from the collection.
    pub fn to_string(&self, known_values: &KnownValues) -> (r: String)
        requires
            self.size >= 0,
        ensures
            r@ == spec_render(known_values.entries@, *self, self.size as nat),
    {
        match &self.op {
            Option::None => int_to_string(self.value),
            Option::Some(o) => o.to_string(known_values, self.size as u32),
        }
    }

    /// Applies the recorded final operation, or yields the bare value.
    pub fn apply(&self) -> (r: Option<i32>)
        requires
            self.op matches Some(o) ==> {
                &&& (o.op == Operator::Add ==> i32::MIN <= o.left + o.right <= i32::MAX)
                &&& (o.op == Operator::Sub ==> i32::MIN <= o.left - o.right <= i32::MAX)
                &&& (o.op == Operator::Mul ==> i32::MIN <= o.left * o.right <= i32::MAX)
                &&& (o.op == Operator::Div ==> !(o.left == i32::MIN && o.right == -1))
            },
        ensures
            self.op is None ==> r == Some(self.value),
            self.op matches Some(o) ==> {
                &&& (r is Some <==> o.op.spec_apply(o.left as int, o.right as int) is Some)
                &&& (r matches Some(v) ==> o.op.spec_apply(o.left as int, o.right as int) == Some(
                    v as int,
                ))
            },
    {
        match &self.op {
            Option::Some(op) => op.apply(),
            Option::None => Some(self.value),
        }
    }
}

/// The rendering of an expression: its bare value for the base number, else
/// its final operation rendered with the given depth budget.
pub open spec fn spec_render(s: Seq<(i32, Expression)>, e: Expression, fuel: nat) -> Seq<char>
    decreases fuel, 1nat,
{
    match e.op {
        Option::None => spec_int_str(e.value as int),
        Option::Some(o) => spec_render_node(s, o, fuel),
    }
}

/// The rendering of one operation: `(left op right)`, operands looked up in
/// the collection; empty where the budget is spent or an operand is absent.
pub open spec fn spec_render_node(s: Seq<(i32, Expression)>, o: Operation, fuel: nat) -> Seq<char>
    decreases fuel, 0nat,
{
    if fuel == 0 {
        Seq::empty()
    } else {
        match (seq_find(s, o.left), seq_find(s, o.right)) {
            (Option::Some(le), Option::Some(re)) => seq!['('] + spec_render(
                s,
                le,
                (fuel - 1) as nat,
            ) + seq![' ', o.op.spec_symbol(), ' '] + spec_render(s, re, (fuel - 1) as nat) + seq![
                ')',
            ],
            _ => Seq::empty(),
        }
    }
}

/// The expression recorded for `k`, if any: the first entry with that key.
pub open spec fn seq_find(s: Seq<(i32, Expression)>, k: i32) -> Option<Expression>
    decreases s.len(),
{
    if s.len() == 0 {
        None
    } else if s[0].0 == k {
        Some(s[0].1)
    } else {
        seq_find(s.drop_first(), k)
    }
}

/// The reached values, each keyed by its own value. A plain association
/// list stands in for a hash map; the search keeps its keys unique.
pub struct KnownValues {
    pub entries: Vec<(i32, Expression)>,
}

impl KnownValues {
    /// An empty collection.
    pub fn new() -> (r: KnownValues)
        ensures
            r.entries@ =~= Seq::<(i32, Expression)>::empty(),
    {
        KnownValues { entries: Vec::new() }
    }

    /// The expression recorded for `k`, if any.
    pub fn get(&self, k: i32) -> (r: Option<&Expression>)
        ensures
            r is Some <==> seq_find(self.entries@, k) is Some,
            r matches Some(e) ==> seq_find(self.entries@, k) == Some(*e),
    {
        let mut i: usize = 0;
        proof {
            assert(self.entries@.skip(0) =~= self.entries@);
        }
        while i < self.entries.len()
            invariant
                i <= self.entries@.len(),
                seq_find(self.entries@, k) == seq_find(self.entries@.skip(i as int), k),
            decreases self.entries@.len() - i,
        {
            proof {
                assert(self.entries@.skip(i as int).drop_first() =~= self.entries@.skip(
                    i as int + 1,
                ));
                assert(self.entries@.skip(i as int)[0] == self.entries@[i as int]);
            }
            if self.entries[i].0 == k {
                return Some(&self.entries[i].1);
            }
            i += 1;
        }
        proof {
            assert(self.entries@.skip(i as int) =~= Seq::<(i32, Expression)>::empty());
        }
        None
    }

    /// Whether `k` has been reached already.
    pub fn contains_key(&self, k: i32) -> (r: bool)
        ensures
            r == (seq_find(self.entries@, k) is Some),
    {
        let e = self.get(k);
        e.is_some()
    }

    /// Records `e` for `k` at the end of the list.
    pub fn insert(&mut self, k: i32, e: Expression)
        ensures
            final(self).entries@ == old(self).entries@.push((k, e)),
    {
        self.entries.push((k, e));
    }

    /// Appends every entry of `other`, keeping existing ones first.
    pub fn extend(&mut self, other: KnownValues)
        ensures
            final(self).entries@ == old(self).entries@ + other.entries@,
    {
        let mut rest = other.entries;
        let ghost rest0 = rest@;
        let mut i: usize = 0;
        while i < rest.len()
            invariant
                i <= rest0.len(),
                rest@ == rest0,
                self.entries@ == old(self).entries@ + rest0.take(i as int),
            decreases rest0.len() - i,
        {
            let pair = (rest[i].0, Expression {
                value: rest[i].1.value,
                size: rest[i].1.size,
                op: match &rest[i].1.op {
                    Some(o) => Some(Operation { op: o.op, left: o.left, right: o.right }),
                    None => None,
                },
            });
            proof {
                assert(pair == rest0[i as int]);
                assert(old(self).entries@ + rest0.take(i as int + 1) =~= (old(self).entries@
                    + rest0.take(i as int)).push(rest0[i as int]));
            }
            self.entries.push(pair);
            i += 1;
        }
        proof {
            assert(rest0.take(rest0.len() as int) =~= rest0);
        }
    }
}

/// The shape of an arithmetic expression over copies of one base number:
/// a leaf is one copy, a node combines two subexpressions with an operator.
/// The type carries the meaning of `expressible`; the search itself only
/// handles values.
pub enum ExprTree {
    Base,
    Node(Operator, Box<ExprTree>, Box<ExprTree>),
}

/// How many copies of the base number the expression uses.
pub open spec fn tree_leaves(e: ExprTree) -> nat
    decreases e,
{
    match e {
        ExprTree::Base => 1,
        ExprTree::Node(_, l, r) => tree_leaves(*l) + tree_leaves(*r),
    }
}

/// What the expression evaluates to with base number `a`, or `None` where a
/// division fails.
pub open spec fn tree_value(a: int, e: ExprTree) -> Option<int>
    decreases e,
{
    match e {
        ExprTree::Base => Some(a),
        ExprTree::Node(op, l, r) => match (tree_value(a, *l), tree_value(a, *r)) {
            (Some(lv), Some(rv)) => op.spec_apply(lv, rv),
            _ => None,
        },
    }
}

/// `n` can be written as an expression using exactly `s` copies of the base
/// number `a`, combined with the four operators (division only where exact).
pub open spec fn expressible(a: int, n: int, s: nat) -> bool {
    exists|e: ExprTree| tree_leaves(e) == s && #[trigger] tree_value(a, e) == Some(n)
}

/// Two expressible operands whose combination succeeds make the result
/// expressible at the summed size.
pub proof fn lemma_expressible_combine(a: int, n: int, op: Operator, l: int, ls: nat, r: int, rs: nat)
    requires
        expressible(a, l, ls),
        expressible(a, r, rs),
        op.spec_apply(l, r) == Some(n),
    ensures
        expressible(a, n, (ls + rs) as nat),
{
    let le = choose|e: ExprTree| tree_leaves(e) == ls && #[trigger] tree_value(a, e) == Some(l);
    let re = choose|e: ExprTree| tree_leaves(e) == rs && #[trigger] tree_value(a, e) == Some(r);
    let ne = ExprTree::Node(op, Box::new(le), Box::new(re));
    assert(tree_leaves(ne) == ls + rs);
    assert(tree_value(a, ne) == Some(n));
}

/// One copy of the base number expresses exactly the base number.
pub proof fn lemma_expressible_base(a: int)
    ensures
        expressible(a, a, 1),
{
    let e = ExprTree::Base;
    assert(tree_leaves(e) == 1 && tree_value(a, e) == Some(a));
}

/// How many copies of `a` the search needs to write `n`, capped at twelve:
/// tries every combination of two already-reached values, smallest total
/// size first, and returns the size at which `n` first appears as a newly
/// reached value. Twelve reports that the cap was hit.
pub fn solve(n: i32, a: i32) -> (r: i32)
    ensures
        2 <= r <= 12,
        r < 12 ==> expressible(a as int, n as int, r as nat),
{
    let mut known = KnownValues::new();
    known.insert(a, Expression { value: a, size: 1, op: None });
    let mut kps: Vec<Vec<i32>> = Vec::new();
    kps.push(Vec::new());
    let mut s1: Vec<i32> = Vec::new();
    s1.push(a);
    kps.push(s1);
    proof {
        lemma_expressible_base(a as int);
    }
    let mut size: i32 = 2;
    while size <= 12
        invariant
            2 <= size <= 13,
            kps@.len() == size,
            forall|s: int, j: int|
                1 <= s < size && 0 <= j < kps@[s]@.len() ==> expressible(
                    a as int,
                    (#[trigger] kps@[s]@[j]) as int,
                    s as nat,
                ),
        decreases 13 - size,
    {
        let mut new_known = KnownValues::new();
        let mut new_kps: Vec<i32> = Vec::new();
        let ops = Operator::values();
        let mut oi: usize = 0;
        while oi < 4
            invariant
                2 <= size <= 12,
                oi <= 4,
                ops@.len() == 4,
                kps@.len() == size,
                forall|s: int, j: int|
                    1 <= s < size && 0 <= j < kps@[s]@.len() ==> expressible(
                        a as int,
                        (#[trigger] kps@[s]@[j]) as int,
                        s as nat,
                    ),
                forall|j: int|
                    0 <= j < new_kps@.len() ==> expressible(
                        a as int,
                        (#[trigger] new_kps@[j]) as int,
                        size as nat,
                    ),
            decreases 4 - oi,
        {
            let operator = ops[oi];
            let mut left_size: i32 = 1;
            while left_size < size
                invariant
                    2 <= size <= 12,
                    1 <= left_size <= size,
                    kps@.len() == size,
                    forall|s: int, j: int|
                        1 <= s < size && 0 <= j < kps@[s]@.len() ==> expressible(
                            a as int,
                            (#[trigger] kps@[s]@[j]) as int,
                            s as nat,
                        ),
                    forall|j: int|
                        0 <= j < new_kps@.len() ==> expressible(
                            a as int,
                            (#[trigger] new_kps@[j]) as int,
                            size as nat,
                        ),
                decreases size - left_size,
            {
                let right_size = size - left_size;
                let skip_half = left_size > right_size && operator.is_commutative();
                if !skip_half {
                    let mut li: usize = 0;
                    while li < kps[left_size as usize].len()
                        invariant
                            2 <= size <= 12,
                            1 <= left_size < size,
                            right_size == size - left_size,
                            li <= kps@[left_size as int]@.len(),
                            kps@.len() == size,
                            forall|s: int, j: int|
                                1 <= s < size && 0 <= j < kps@[s]@.len() ==> expressible(
                                    a as int,
                                    (#[trigger] kps@[s]@[j]) as int,
                                    s as nat,
                                ),
                            forall|j: int|
                                0 <= j < new_kps@.len() ==> expressible(
                                    a as int,
                                    (#[trigger] new_kps@[j]) as int,
                                    size as nat,
                                ),
                        decreases kps@[left_size as int]@.len() - li,
                    {
                        let left_value = kps[left_size as usize][li];
                        let mut ri: usize = 0;
                        while ri < kps[right_size as usize].len()
                            invariant
                                2 <= size <= 12,
                                1 <= left_size < size,
                                right_size == size - left_size,
                                li < kps@[left_size as int]@.len(),
                                left_value == kps@[left_size as int]@[li as int],
                                ri <= kps@[right_size as int]@.len(),
                                kps@.len() == size,
                                forall|s: int, j: int|
                                    1 <= s < size && 0 <= j < kps@[s]@.len() ==> expressible(
                                        a as int,
                                        (#[trigger] kps@[s]@[j]) as int,
                                        s as nat,
                                    ),
                                forall|j: int|
                                    0 <= j < new_kps@.len() ==> expressible(
                                        a as int,
                                        (#[trigger] new_kps@[j]) as int,
                                        size as nat,
                                    ),
                            decreases kps@[right_size as int]@.len() - ri,
                        {
                            let right_value = kps[right_size as usize][ri];
                            let result = checked_apply(operator, left_value, right_value);
                            if let Some(result) = result {
                                let dup = known.contains_key(result)
                                    || new_known.contains_key(result);
                                if !dup {
                                    proof {
                                        lemma_expressible_combine(
                                            a as int,
                                            result as int,
                                            operator,
                                            left_value as int,
                                            left_size as nat,
                                            right_value as int,
                                            right_size as nat,
                                        );
                                    }
                                    let expression = Expression {
                                        value: result,
                                        size,
                                        op: Some(Operation {
                                            op: operator,
                                            left: left_value,
                                            right: right_value,
                                        }),
                                    };
                                    if result == n {
                                        return size;
                                    }
                                    new_known.insert(result, expression);
                                    new_kps.push(result);
                                }
                            }
                            ri += 1;
                        }
                        li += 1;
                    }
                }
                left_size += 1;
            }
            oi += 1;
        }
        known.extend(new_known);
        kps.push(new_kps);
        size += 1;
    }
    12
}

} // verus!
