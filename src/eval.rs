//! Evaluation: dice are drawn in order, and the total is summed with signs.
use vstd::prelude::*;

use rand::Rng;

use crate::digits::{decimal, push_decimal};
use crate::parser::{evaluable, magnitude, root_of, sides_positive, Expr, Node, RootNode};

verus! {

/// One die rolled: its number of sides and the value it showed.
#[derive(Debug, PartialEq, Eq, Clone, Copy, Structural)]
pub struct RollResult {
    pub die: u32,
    pub result: u32,
}

impl RollResult {
    /// The text `d<die>:<result>`.
    pub fn to_string(&self) -> (r: String)
        ensures
            r@ == "d"@ + decimal(self.die as nat) + ":"@ + decimal(self.result as nat),
    {
        let mut out = String::from_str("d");
        push_decimal(&mut out, self.die);
        out.append(":");
        push_decimal(&mut out, self.result);
        out
    }
}

pub open spec fn term_dice(r: RootNode) -> Seq<u32> {
    match r {
        RootNode::Roll(count, sides) => Seq::new(count as nat, |i: int| sides),
        RootNode::Constant(_) => Seq::empty(),
    }
}

/// The sides of each die to roll, in the order they are rolled.
pub open spec fn dice(ns: Seq<Node>) -> Seq<u32>
    decreases ns.len(),
{
    if ns.len() == 0 {
        Seq::empty()
    } else {
        dice(ns.drop_last()) + term_dice(root_of(ns.last()))
    }
}

/// The sum of the `count` fields of all dice terms.
pub open spec fn roll_count(ns: Seq<Node>) -> nat
    decreases ns.len(),
{
    if ns.len() == 0 {
        0
    } else {
        roll_count(ns.drop_last()) + match root_of(ns.last()) {
            RootNode::Roll(count, _) => count as nat,
            RootNode::Constant(_) => 0,
        }
    }
}

pub open spec fn sign_of(n: Node) -> int {
    match n {
        Node::Add(_) => 1,
        Node::Sub(_) => -1,
    }
}

pub open spec fn sum(vs: Seq<u32>) -> int
    decreases vs.len(),
{
    if vs.len() == 0 {
        0
    } else {
        sum(vs.drop_last()) + vs.last()
    }
}

/// The total of `ns` when the dice show `vals`, in rolling order.
pub open spec fn total_of(ns: Seq<Node>, vals: Seq<u32>) -> int
    decreases ns.len(),
{
    if ns.len() == 0 {
        0
    } else {
        let init = ns.drop_last();
        let off = dice(init).len() as int;
        total_of(init, vals) + sign_of(ns.last()) * match root_of(ns.last()) {
            RootNode::Constant(c) => c as int,
            RootNode::Roll(count, _) => sum(vals.subrange(off, off + count)),
        }
    }
}

/// The roll log of dice with sides `ds` that showed `vals`.
pub open spec fn outcomes(ds: Seq<u32>, vals: Seq<u32>) -> Seq<RollResult> {
    Seq::new(ds.len(), |i: int| RollResult { die: ds[i], result: vals[i] })
}

pub open spec fn results(rolls: Seq<RollResult>) -> Seq<u32> {
    rolls.map_values(|r: RollResult| r.result)
}

/// Values that dice with sides `ds` can show.
pub open spec fn values_fit(ds: Seq<u32>, vals: Seq<u32>) -> bool {
    &&& vals.len() == ds.len()
    &&& forall|i: int| 0 <= i < ds.len() ==> 1 <= #[trigger] vals[i] <= ds[i]
}

pub proof fn lemma_dice_concat(a: Seq<Node>, b: Seq<Node>)
    ensures
        dice(a + b) == dice(a) + dice(b),
    decreases b.len(),
{
    if b.len() == 0 {
        assert(a + b =~= a);
        assert(dice(a) + dice(b) =~= dice(a));
    } else {
        lemma_dice_concat(a, b.drop_last());
        assert((a + b).drop_last() =~= a + b.drop_last());
        assert((a + b).last() == b.last());
        assert(dice(a) + dice(b.drop_last()) + term_dice(root_of(b.last())) =~= dice(a) + dice(b));
    }
}

pub proof fn lemma_dice_len(ns: Seq<Node>)
    ensures
        dice(ns).len() == roll_count(ns),
    decreases ns.len(),
{
    if ns.len() > 0 {
        lemma_dice_len(ns.drop_last());
    }
}

pub proof fn lemma_dice_positive(ns: Seq<Node>)
    requires
        sides_positive(ns),
    ensures
        forall|i: int| 0 <= i < dice(ns).len() ==> #[trigger] dice(ns)[i] >= 1,
    decreases ns.len(),
{
    if ns.len() > 0 {
        let init = ns.drop_last();
        assert forall|k: int| 0 <= k < init.len() implies match root_of(#[trigger] init[k]) {
            RootNode::Roll(_, s) => s >= 1,
            RootNode::Constant(_) => true,
        } by {
            assert(init[k] == ns[k]);
        }
        lemma_dice_positive(init);
        assert(root_of(ns.last()) == root_of(ns[ns.len() - 1]));
        let d = dice(ns);
        let di = dice(init);
        assert forall|i: int| 0 <= i < d.len() implies #[trigger] d[i] >= 1 by {
            if i < di.len() {
                assert(d[i] == di[i]);
            } else {
                assert(d[i] == term_dice(root_of(ns.last()))[i - di.len()]);
            }
        }
    }
}

/// Relies on `rand::thread_rng` and `Rng::gen_range`: a value drawn from
/// `1..=die`. `gen_range` panics on an empty range, hence `die >= 1`.
#[verifier::external_body]
fn roll(die: u32) -> (r: u32)
    requires
        die >= 1,
    ensures
        1 <= r <= die,
{
    rand::thread_rng().gen_range(1..=die)
}

impl Expr {
    /// The sides of each die to roll, in order.
    pub fn dice(&self) -> (r: Vec<u32>)
        ensures
            r@ == dice(self@),
    {
        let mut out: Vec<u32> = Vec::new();
        let mut k: usize = 0;
        while k < self.0.len()
            invariant
                k <= self@.len(),
                out@ == dice(self@.take(k as int)),
            decreases self@.len() - k,
        {
            let ghost before = out@;
            match self.0[k] {
                Node::Add(RootNode::Roll(count, sides)) | Node::Sub(RootNode::Roll(count, sides)) => {
                    let mut j: u32 = 0;
                    while j < count
                        invariant
                            j <= count,
                            out@ == before + Seq::new(j as nat, |i: int| sides),
                        decreases count - j,
                    {
                        out.push(sides);
                        j = j + 1;
                        assert(out@ =~= before + Seq::new(j as nat, |i: int| sides));
                    }
                },
                _ => {
                    assert(out@ =~= before + Seq::<u32>::empty());
                },
            }
            assert(self@.take(k + 1).drop_last() =~= self@.take(k as int));
            assert(self@.take(k + 1).last() == self@[k as int]);
            k = k + 1;
        }
        assert(self@.take(k as int) =~= self@);
        out
    }

    /// Totals the expression with `values` as what the dice showed, in
    /// rolling order.
    pub fn tally(&self, values: &Vec<u32>) -> (r: (i64, Vec<RollResult>))
        requires
            evaluable(self@),
            values_fit(dice(self@), values@),
        ensures
            r.0 == total_of(self@, values@),
            r.1@ == outcomes(dice(self@), values@),
    {
        let ghost ns = self@;
        let ghost vals = values@;
        let mut total: i64 = 0;
        let mut rolls: Vec<RollResult> = Vec::new();
        let mut pos: usize = 0;
        let mut k: usize = 0;
        let nv = values.len();
        assert(rolls@ =~= outcomes(dice(ns.take(0)), vals));
        while k < self.0.len()
            invariant
                ns == self@,
                vals == values@,
                nv == vals.len(),
                evaluable(ns),
                values_fit(dice(ns), vals),
                k <= ns.len(),
                total == total_of(ns.take(k as int), vals),
                -magnitude(ns.take(k as int)) <= total <= magnitude(ns.take(k as int)),
                pos == dice(ns.take(k as int)).len(),
                rolls@ == outcomes(dice(ns.take(k as int)), vals),
            decreases ns.len() - k,
        {
            let n = self.0[k];
            let ghost pre = ns.take(k as int);
            let ghost off = pos as int;
            let ghost start = total as int;
            proof {
                assert(ns.take(k + 1).drop_last() =~= pre);
                assert(ns.take(k + 1).last() == n);
                lemma_dice_concat(ns.take(k + 1), ns.skip(k + 1));
                assert(ns.take(k + 1) + ns.skip(k + 1) =~= ns);
                crate::parser::lemma_magnitude_prefix(ns, k + 1);
            }
            match n {
                Node::Add(RootNode::Constant(c)) => {
                    total = total + c as i64;
                },
                Node::Sub(RootNode::Constant(c)) => {
                    total = total - c as i64;
                },
                Node::Add(RootNode::Roll(count, sides)) | Node::Sub(RootNode::Roll(count, sides)) => {
                    let ghost before = rolls@;
                    let mut j: u32 = 0;
                    assert(vals.subrange(off, off) =~= Seq::<u32>::empty());
                    assert(before =~= outcomes(dice(pre) + Seq::new(0, |i: int| sides), vals));
                    while j < count
                        invariant
                            ns == self@,
                            vals == values@,
                            nv == vals.len(),
                            values_fit(dice(ns), vals),
                            dice(ns) == dice(pre) + term_dice(RootNode::Roll(count, sides)) + dice(
                                ns.skip(k + 1),
                            ),
                            off == dice(pre).len(),
                            j <= count,
                            pos == off + j,
                            magnitude(pre) + count as nat * sides as nat <= i64::MAX,
                            -magnitude(pre) <= start <= magnitude(pre),
                            n == Node::Add(RootNode::Roll(count, sides)) || n == Node::Sub(
                                RootNode::Roll(count, sides),
                            ),
                            n is Add ==> total == start + sum(vals.subrange(off, off + j)),
                            n is Sub ==> total == start - sum(vals.subrange(off, off + j)),
                            0 <= sum(vals.subrange(off, off + j)) <= j * sides,
                            rolls@ == outcomes(dice(pre) + Seq::new(j as nat, |i: int| sides), vals),
                        decreases count - j,
                    {
                        let v = values[pos];
                        assert(dice(ns)[off + j] == sides);
                        assert(v == vals[off + j]);
                        assert(vals.subrange(off, off + j + 1).last() == v);
                        assert(vals.subrange(off, off + j + 1).drop_last() =~= vals.subrange(
                            off,
                            off + j,
                        ));
                        assert((j + 1) * sides <= count as nat * sides as nat) by (nonlinear_arith)
                            requires
                                j < count,
                        ;
                        assert(j * sides + sides == (j + 1) * sides) by (nonlinear_arith);
                        match n {
                            Node::Add(_) => {
                                total = total + v as i64;
                            },
                            _ => {
                                total = total - v as i64;
                            },
                        }
                        rolls.push(RollResult { die: sides, result: v });
                        pos = pos + 1;
                        j = j + 1;
                        assert(rolls@ =~= outcomes(dice(pre) + Seq::new(j as nat, |i: int| sides), vals));
                    }
                },
            }
            k = k + 1;
        }
        assert(ns.take(k as int) =~= ns);
        (total, rolls)
    }

    /// Rolls every die, in order, and totals the expression.
    pub fn eval(&self) -> (r: (i64, Vec<RollResult>))
        requires
            evaluable(self@),
        ensures
            r.1@.len() == roll_count(self@),
            values_fit(dice(self@), results(r.1@)),
            r.1@ == outcomes(dice(self@), results(r.1@)),
            r.0 == total_of(self@, results(r.1@)),
    {
        let sides = self.dice();
        proof {
            lemma_dice_positive(self@);
            lemma_dice_len(self@);
        }
        let mut values: Vec<u32> = Vec::new();
        let mut k: usize = 0;
        while k < sides.len()
            invariant
                sides@ == dice(self@),
                forall|i: int| 0 <= i < sides@.len() ==> #[trigger] sides@[i] >= 1,
                k <= sides@.len(),
                values@.len() == k,
                forall|i: int| 0 <= i < k ==> 1 <= #[trigger] values@[i] <= sides@[i],
            decreases sides@.len() - k,
        {
            let v = roll(sides[k]);
            values.push(v);
            k = k + 1;
        }
        let r = self.tally(&values);
        assert(results(r.1@) =~= values@);
        r
    }
}

} // verus!
