use vstd::prelude::*;
use crate::text::{
    chars_of, lines_spec, parse_unsigned, parse_unsigned_spec, split_on, split_str, trim_spec, trim_str,
    word_slices, words_spec,
};

verus! {

/// Why a rule book or a question about it was refused.
#[derive(Clone, Copy, Debug, PartialEq, Eq, Structural)]
pub enum BagError {
    /// A rule names a bag type that has no rule of its own.
    UndefinedKeys,
    /// Two rules are given for one bag type.
    DuplicateKeys,
    /// The bag type asked about has no rule.
    UnknownBagType,
    /// A bag type that is not a modifier, a colour and `bag` or `bags`.
    InvalidTypeSyntax,
    InvalidTypeSuffix,
    /// A rule that is not a number and a bag type.
    InvalidRuleSyntax,
    InvalidNumberFormat,
    /// A line that does not end in `.`.
    MissingPairSuffix,
    /// A line without exactly one `contain`.
    InvalidPairSyntax,
    /// A count met on the way does not fit in a `u32`.
    CountOverflow,
}

/// A bag type: its colour, then its modifier (`shiny gold` is `gold`, `shiny`).
#[derive(Clone, Debug)]
pub struct BagType(pub String, pub String);

pub type BagView = (Seq<char>, Seq<char>);

impl View for BagType {
    type V = BagView;

    open spec fn view(&self) -> BagView {
        (self.0@, self.1@)
    }
}

/// That a bag holds this many bags of this type.
#[derive(Clone, Debug)]
pub struct BagRule(pub BagType, pub u32);

/// A bag type with what it holds.
#[derive(Clone, Debug)]
pub struct RulePair(pub BagType, pub Vec<BagRule>);

pub type PairView = (BagView, Seq<(BagView, u32)>);

impl View for RulePair {
    type V = PairView;

    open spec fn view(&self) -> PairView {
        (self.0@, self.1@.map_values(|r: BagRule| (r.0@, r.1)))
    }
}

/// The rules for every bag type, one pair per type.
#[derive(Clone, Debug)]
pub struct RuleBook(pub Vec<RulePair>);

impl View for RuleBook {
    type V = Seq<PairView>;

    open spec fn view(&self) -> Seq<PairView> {
        self.0@.map_values(|p: RulePair| p@)
    }
}

pub open spec fn is_key(b: Seq<PairView>, t: BagView) -> bool {
    exists|i: int| 0 <= i < b.len() && (#[trigger] b[i]).0 == t
}

pub open spec fn keys_distinct(b: Seq<PairView>) -> bool {
    forall|i: int, j: int| 0 <= i < j < b.len() ==> (#[trigger] b[i]).0 != (#[trigger] b[j]).0
}

/// Every bag type that a rule names has a rule of its own.
pub open spec fn complete(b: Seq<PairView>) -> bool {
    forall|i: int, k: int|
        0 <= i < b.len() && 0 <= k < b[i].1.len() ==> is_key(b, (#[trigger] b[i].1[k]).0)
}

/// Pair `i` is the last one given for its bag type.
pub open spec fn last_of_key(b: Seq<PairView>, i: int) -> bool {
    forall|j: int| i < j < b.len() ==> (#[trigger] b[j]).0 != b[i].0
}

/// Some rule of a pair that stands for its type names an undefined type.
pub open spec fn has_undefined(b: Seq<PairView>) -> bool {
    exists|i: int, k: int|
        0 <= i < b.len() && last_of_key(b, i) && 0 <= k < b[i].1.len() && !is_key(
            b,
            (#[trigger] b[i].1[k]).0,
        )
}

/// Bag `a`'s rule names bag type `c`.
pub open spec fn holds(b: Seq<PairView>, a: BagView, c: BagView) -> bool {
    exists|i: int, k: int|
        0 <= i < b.len() && (#[trigger] b[i]).0 == a && 0 <= k < b[i].1.len() && (
        #[trigger] b[i].1[k]).0 == c
}

/// Each bag of `p` holds the next one.
pub open spec fn is_chain(b: Seq<PairView>, p: Seq<BagView>) -> bool {
    p.len() >= 2 && forall|i: int| 0 <= i < p.len() - 1 ==> holds(b, #[trigger] p[i], p[i + 1])
}

/// Bag `a` holds, directly or inside other bags, a bag of type `t`.
pub open spec fn reaches(b: Seq<PairView>, a: BagView, t: BagView) -> bool {
    exists|p: Seq<BagView>| is_chain(b, p) && p[0] == a && p.last() == t
}

impl RuleBook {
    pub open spec fn wf(&self) -> bool {
        keys_distinct(self@) && complete(self@)
    }
}

fn same_type(a: &BagType, b: &BagType) -> (r: bool)
    ensures
        r == (a@ == b@),
{
    a.0 == b.0 && a.1 == b.1
}

/// Where the rule for `t` stands, if there is one.
fn find_key(pairs: &Vec<RulePair>, t: &BagType) -> (r: Option<usize>)
    ensures
        r matches Some(i) ==> i < pairs@.len() && pairs@[i as int]@.0 == t@,
        r is None ==> forall|i: int| 0 <= i < pairs@.len() ==> pairs@[i]@.0 != t@,
{
    let mut i: usize = 0;
    while i < pairs.len()
        invariant
            i <= pairs@.len(),
            forall|j: int| 0 <= j < i ==> pairs@[j]@.0 != t@,
        decreases pairs@.len() - i,
    {
        if same_type(&pairs[i].0, t) {
            return Some(i);
        }
        i += 1;
    }
    None
}

impl RuleBook {
    /// A rule book from its pairs: every bag type named must have a pair,
    /// and no type may have two.
    pub fn new(pairs: Vec<RulePair>) -> (r: Result<RuleBook, BagError>)
        ensures
            match r {
                Ok(book) => book@ == pairs@.map_values(|p: RulePair| p@) && book.wf(),
                Err(e) => {
                    let b = pairs@.map_values(|p: RulePair| p@);
                    if has_undefined(b) {
                        e == BagError::UndefinedKeys
                    } else {
                        e == BagError::DuplicateKeys && !keys_distinct(b)
                    }
                },
            },
    {
        let ghost b = pairs@.map_values(|p: RulePair| p@);
        let n = pairs.len();
        let mut i: usize = 0;
        while i < n
            invariant
                n == pairs@.len(),
                b == pairs@.map_values(|p: RulePair| p@),
                i <= n,
                forall|a: int, k: int|
                    0 <= a < i && last_of_key(b, a) && 0 <= k < b[a].1.len() ==> is_key(
                        b,
                        (#[trigger] b[a].1[k]).0,
                    ),
            decreases n - i,
        {
            let mut later = false;
            let mut j: usize = i + 1;
            while j < n
                invariant
                    n == pairs@.len(),
                    b == pairs@.map_values(|p: RulePair| p@),
                    i < j <= n,
                    later == exists|x: int| i < x < j && (#[trigger] b[x]).0 == b[i as int].0,
                decreases n - j,
            {
                assert(b[j as int] == pairs@[j as int]@ && b[i as int] == pairs@[i as int]@);
                if same_type(&pairs[j].0, &pairs[i].0) {
                    later = true;
                }
                j += 1;
            }
            if !later {
                let rules = &pairs[i].1;
                let mut k: usize = 0;
                while k < rules.len()
                    invariant
                        n == pairs@.len(),
                        b == pairs@.map_values(|p: RulePair| p@),
                        i < n,
                        rules == pairs@[i as int].1,
                        last_of_key(b, i as int),
                        k <= rules@.len(),
                        forall|q: int| 0 <= q < k ==> is_key(b, (#[trigger] b[i as int].1[q]).0),
                    decreases rules@.len() - k,
                {
                    assert(b[i as int].1[k as int] == (rules@[k as int].0@, rules@[k as int].1));
                    match find_key(&pairs, &rules[k].0) {
                        Some(x) => {
                            assert(b[x as int].0 == b[i as int].1[k as int].0);
                        },
                        None => {
                            assert(!is_key(b, b[i as int].1[k as int].0));
                            assert(has_undefined(b));
                            return Err(BagError::UndefinedKeys);
                        },
                    }
                    k += 1;
                }
            }
            i += 1;
        }
        assert(!has_undefined(b));
        let mut a: usize = 0;
        while a < n
            invariant
                n == pairs@.len(),
                b == pairs@.map_values(|p: RulePair| p@),
                a <= n,
                !has_undefined(b),
                forall|x: int, y: int| 0 <= x < a && x < y < n ==> (#[trigger] b[x]).0 != (#[trigger] b[y]).0,
            decreases n - a,
        {
            let mut c: usize = a + 1;
            while c < n
                invariant
                    n == pairs@.len(),
                    b == pairs@.map_values(|p: RulePair| p@),
                    a < c <= n,
                    !has_undefined(b),
                    forall|x: int, y: int| 0 <= x < a && x < y < n ==> (#[trigger] b[x]).0 != (#[trigger] b[y]).0,
                    forall|y: int| a < y < c ==> b[a as int].0 != (#[trigger] b[y]).0,
                decreases n - c,
            {
                assert(b[a as int] == pairs@[a as int]@ && b[c as int] == pairs@[c as int]@);
                if same_type(&pairs[a].0, &pairs[c].0) {
                    assert(!keys_distinct(b));
                    return Err(BagError::DuplicateKeys);
                }
                c += 1;
            }
            a += 1;
        }
        let book = RuleBook(pairs);
        proof {
            assert forall|x: int, k: int|
                0 <= x < b.len() && 0 <= k < b[x].1.len() implies is_key(b, (#[trigger] b[x].1[k]).0) by {
                assert(last_of_key(b, x));
            }
        }
        Ok(book)
    }
}

/// Pair `i`'s rule names the type of pair `j`.
pub open spec fn holds_at(b: Seq<PairView>, i: int, j: int) -> bool {
    exists|k: int| 0 <= k < b[i].1.len() && (#[trigger] b[i].1[k]).0 == b[j].0
}

/// `inv[j][i]` tells whether pair `i`'s rule names the type of pair `j`.
pub open spec fn inverts(b: Seq<PairView>, inv: Seq<Vec<bool>>) -> bool {
    &&& inv.len() == b.len()
    &&& forall|j: int| 0 <= j < b.len() ==> (#[trigger] inv[j])@.len() == b.len()
    &&& forall|j: int, i: int|
        0 <= j < b.len() && 0 <= i < b.len() ==> ((#[trigger] inv[j]@[i]) <==> holds_at(b, i, j))
}

/// Where the pair for `t` stands.
pub open spec fn pos_of(b: Seq<PairView>, t: BagView) -> int {
    choose|i: int| 0 <= i < b.len() && b[i].0 == t
}

/// How many bags one bag of pair `i` stands for, itself included, following
/// what it holds at most `fuel` levels deep.
pub open spec fn bag_total(b: Seq<PairView>, i: int, fuel: nat) -> int
    decreases fuel, 0nat,
{
    if fuel == 0 || !(0 <= i < b.len()) {
        1
    } else {
        1 + rules_total(b, b[i].1, (fuel - 1) as nat)
    }
}

/// What the rules `rs` stand for: each bag type's total times its number.
pub open spec fn rules_total(b: Seq<PairView>, rs: Seq<(BagView, u32)>, fuel: nat) -> int
    decreases fuel, rs.len(),
{
    if rs.len() == 0 {
        0
    } else {
        rules_total(b, rs.drop_last(), fuel) + bag_total(b, pos_of(b, rs.last().0), fuel)
            * rs.last().1
    }
}

/// Every total met while counting pair `i` fits in a `u32`.
pub open spec fn fits(b: Seq<PairView>, i: int, fuel: nat) -> bool
    decreases fuel,
{
    &&& bag_total(b, i, fuel) <= u32::MAX
    &&& (fuel > 0 && 0 <= i < b.len()) ==> forall|k: int|
        0 <= k < b[i].1.len() ==> fits(b, pos_of(b, (#[trigger] b[i].1[k]).0), (fuel - 1) as nat)
}

proof fn lemma_totals_positive(b: Seq<PairView>, rs: Seq<(BagView, u32)>, fuel: nat, k: int)
    requires
        0 <= k <= rs.len(),
    ensures
        0 <= rules_total(b, rs.subrange(0, k), fuel) <= rules_total(b, rs, fuel),
    decreases fuel, rs.len(),
{
    if rs.len() > 0 {
        lemma_bag_total_positive(b, fuel);
        if k == rs.len() {
            assert(rs.subrange(0, k) =~= rs);
            lemma_totals_positive(b, rs.drop_last(), fuel, k - 1);
            assert(rs.drop_last().subrange(0, k - 1) =~= rs.drop_last());
        } else {
            lemma_totals_positive(b, rs.drop_last(), fuel, k);
            assert(rs.drop_last().subrange(0, k) =~= rs.subrange(0, k));
        }
        assert(bag_total(b, pos_of(b, rs.last().0), fuel) >= 1);
        assert(bag_total(b, pos_of(b, rs.last().0), fuel) * rs.last().1 >= 0) by (nonlinear_arith)
            requires
                bag_total(b, pos_of(b, rs.last().0), fuel) >= 1,
        ;
    }
}

proof fn lemma_bag_total_positive(b: Seq<PairView>, fuel: nat)
    ensures
        forall|i: int| bag_total(b, i, fuel) >= 1,
    decreases fuel, 0nat,
{
    if fuel > 0 {
        lemma_bag_total_positive(b, (fuel - 1) as nat);
        assert forall|i: int| bag_total(b, i, fuel) >= 1 by {
            if 0 <= i < b.len() {
                lemma_totals_positive(b, b[i].1, (fuel - 1) as nat, 0);
            }
        }
    }
}

proof fn lemma_chain_extend(b: Seq<PairView>, a: BagView, c: BagView, t: BagView)
    requires
        holds(b, a, c),
        c == t || reaches(b, c, t),
    ensures
        reaches(b, a, t),
{
    if c == t {
        let p = seq![a, c];
        assert(is_chain(b, p));
        assert(p[0] == a && p.last() == t);
    } else {
        let q = choose|q: Seq<BagView>| is_chain(b, q) && q[0] == c && q.last() == t;
        let p = seq![a] + q;
        assert forall|i: int| 0 <= i < p.len() - 1 implies holds(b, #[trigger] p[i], p[i + 1]) by {
            if i > 0 {
                assert(p[i] == q[i - 1] && p[i + 1] == q[i]);
            }
        }
        assert(is_chain(b, p));
        assert(p.last() == q.last());
        assert(p[0] == a && p.last() == t);
    }
}

/// The number of `false` entries of `s`.
pub open spec fn falses(s: Seq<bool>) -> nat
    decreases s.len(),
{
    if s.len() == 0 {
        0
    } else {
        falses(s.drop_last()) + if s.last() {
            0nat
        } else {
            1nat
        }
    }
}

proof fn lemma_falses_set(s: Seq<bool>, i: int)
    requires
        0 <= i < s.len(),
        !s[i],
    ensures
        falses(s.update(i, true)) + 1 == falses(s),
    decreases s.len(),
{
    if i < s.len() - 1 {
        lemma_falses_set(s.drop_last(), i);
        assert(s.update(i, true).drop_last() =~= s.drop_last().update(i, true));
    } else {
        assert(s.update(i, true).drop_last() =~= s.drop_last());
    }
}

fn copy_type(t: &BagType) -> (r: BagType)
    ensures
        r@ == t@,
{
    BagType(t.0.clone(), t.1.clone())
}

impl RuleBook {
    /// For every pair, which pairs' rules name its type.
    pub fn invert(&self) -> (r: Vec<Vec<bool>>)
        requires
            self.wf(),
        ensures
            inverts(self@, r@),
    {
        let ghost b = self@;
        let n = self.0.len();
        let mut inv: Vec<Vec<bool>> = Vec::new();
        let mut j: usize = 0;
        while j < n
            invariant
                j <= n,
                inv@.len() == j,
                forall|x: int| 0 <= x < j ==> (#[trigger] inv@[x])@ == Seq::new(n as nat, |q: int| false),
            decreases n - j,
        {
            let mut row: Vec<bool> = Vec::new();
            let mut q: usize = 0;
            while q < n
                invariant
                    q <= n,
                    row@ == Seq::new(q as nat, |z: int| false),
                decreases n - q,
            {
                row.push(false);
                assert(row@ =~= Seq::new((q + 1) as nat, |z: int| false));
                q += 1;
            }
            inv.push(row);
            j += 1;
        }
        let mut i: usize = 0;
        while i < n
            invariant
                b == self@,
                self.wf(),
                n == b.len(),
                i <= n,
                inv@.len() == n,
                forall|x: int| 0 <= x < n ==> (#[trigger] inv@[x])@.len() == n,
                forall|x: int, y: int|
                    0 <= x < n && 0 <= y < n ==> ((#[trigger] inv@[x]@[y]) <==> (y < i && holds_at(b, y, x))),
            decreases n - i,
        {
            let rules = &self.0[i].1;
            assert(b[i as int] == self.0@[i as int]@);
            let mut k: usize = 0;
            while k < rules.len()
                invariant
                    b == self@,
                    self.wf(),
                    n == b.len(),
                    i < n,
                    rules == self.0@[i as int].1,
                    b[i as int] == self.0@[i as int]@,
                    k <= rules@.len(),
                    inv@.len() == n,
                    forall|x: int| 0 <= x < n ==> (#[trigger] inv@[x])@.len() == n,
                    forall|x: int, y: int|
                        0 <= x < n && 0 <= y < n ==> ((#[trigger] inv@[x]@[y]) <==> (y < i
                            && holds_at(b, y, x) || y == i && exists|z: int|
                            0 <= z < k && (#[trigger] b[i as int].1[z]).0 == b[x].0)),
                decreases rules@.len() - k,
            {
                assert(b[i as int].1[k as int] == (rules@[k as int].0@, rules@[k as int].1));
                assert(is_key(b, b[i as int].1[k as int].0));
                let found = find_key(&self.0, &rules[k].0);
                let x = match found {
                    Some(x) => x,
                    None => {
                        proof {
                            let w = choose|w: int| 0 <= w < b.len() && (#[trigger] b[w]).0 == b[i as int].1[k as int].0;
                            assert(b[w] == self.0@[w]@);
                        }
                        return inv;
                    },
                };
                assert(b[x as int] == self.0@[x as int]@);
                let mut row = inv[x].clone();
                row.set(i, true);
                inv.set(x, row);
                proof {
                    assert forall|x2: int, y: int|
                        0 <= x2 < n && 0 <= y < n implies ((#[trigger] inv@[x2]@[y]) <==> (y < i
                            && holds_at(b, y, x2) || y == i && exists|z: int|
                            0 <= z < k + 1 && (#[trigger] b[i as int].1[z]).0 == b[x2].0)) by {
                        if y == i && x2 != x {
                            if exists|z: int| 0 <= z < k + 1 && (#[trigger] b[i as int].1[z]).0 == b[x2].0 {
                                let z = choose|z: int| 0 <= z < k + 1 && (#[trigger] b[i as int].1[z]).0 == b[x2].0;
                                if z == k {
                                    assert(b[x2].0 == b[x as int].0);
                                }
                            }
                        }
                        if y == i && x2 == x {
                            assert(b[i as int].1[k as int].0 == b[x2].0);
                        }
                    }
                }
                k += 1;
            }
            proof {
                assert forall|x: int, y: int|
                    0 <= x < n && 0 <= y < n implies ((#[trigger] inv@[x]@[y]) <==> (y < i + 1
                        && holds_at(b, y, x))) by {
                    if y == i && holds_at(b, y, x) {
                        let z = choose|z: int| 0 <= z < b[y].1.len() && (#[trigger] b[y].1[z]).0 == b[x].0;
                        assert(b[i as int].1.len() == rules@.len());
                    }
                }
            }
            i += 1;
        }
        inv
    }
}

pub open spec fn type_views(v: Seq<BagType>) -> Seq<BagView> {
    v.map_values(|t: BagType| t@)
}

/// Every bag in a chain ending at the bag of pair `start` is the bag of a
/// pair marked in `found`, once `found` is closed under holding.
proof fn lemma_chain_found(
    b: Seq<PairView>,
    inv: Seq<Vec<bool>>,
    found: Seq<bool>,
    start: int,
    p: Seq<BagView>,
    m: int,
)
    requires
        keys_distinct(b),
        inverts(b, inv),
        found.len() == b.len(),
        0 <= start < b.len(),
        forall|j: int, i: int|
            0 <= j < b.len() && 0 <= i < b.len() && (j == start || found[j]) && #[trigger] inv[j]@[i] ==> found[i],
        is_chain(b, p),
        p.last() == b[start].0,
        0 <= m < p.len() - 1,
    ensures
        exists|i: int| 0 <= i < b.len() && found[i] && (#[trigger] b[i]).0 == p[m],
    decreases p.len() - m,
{
    let next = if m == p.len() - 2 {
        start
    } else {
        lemma_chain_found(b, inv, found, start, p, m + 1);
        choose|i: int| 0 <= i < b.len() && found[i] && (#[trigger] b[i]).0 == p[m + 1]
    };
    assert(b[next].0 == p[m + 1]);
    assert(holds(b, p[m], p[m + 1]));
    let (i, k) = choose|i: int, k: int|
        0 <= i < b.len() && (#[trigger] b[i]).0 == p[m] && 0 <= k < b[i].1.len() && (
        #[trigger] b[i].1[k]).0 == p[m + 1];
    assert(holds_at(b, i, next));
    assert(inv[next]@[i]);
}

impl RuleBook {
    /// Every bag type that holds, directly or inside other bags, a bag of type `bag`.
    pub fn solve(&self, bag: &BagType) -> (r: Result<Vec<BagType>, BagError>)
        requires
            self.wf(),
        ensures
            match r {
                Ok(v) => is_key(self@, bag@) && (forall|x: BagView|
                    type_views(v@).contains(x) <==> reaches(self@, x, bag@)) && type_views(
                    v@,
                ).no_duplicates(),
                Err(e) => !is_key(self@, bag@) && e == BagError::UnknownBagType,
            },
    {
        let ghost b = self@;
        let n = self.0.len();
        let start = match find_key(&self.0, bag) {
            Some(s) => s,
            None => {
                proof {
                    if is_key(b, bag@) {
                        let w = choose|w: int| 0 <= w < b.len() && (#[trigger] b[w]).0 == bag@;
                        assert(b[w] == self.0@[w]@);
                    }
                }
                return Err(BagError::UnknownBagType);
            },
        };
        assert(b[start as int] == self.0@[start as int]@);
        let inv = self.invert();
        let mut found: Vec<bool> = Vec::new();
        let mut q: usize = 0;
        while q < n
            invariant
                q <= n,
                found@ == Seq::new(q as nat, |z: int| false),
            decreases n - q,
        {
            found.push(false);
            assert(found@ =~= Seq::new((q + 1) as nat, |z: int| false));
            q += 1;
        }
        let mut remain: Vec<usize> = vec![start];
        while remain.len() > 0
            invariant
                b == self@,
                self.wf(),
                n == b.len(),
                start < n,
                b[start as int].0 == bag@,
                inverts(b, inv@),
                found@.len() == n,
                forall|i: int| 0 <= i < n && #[trigger] found@[i] ==> reaches(b, b[i].0, bag@),
                forall|k: int|
                    0 <= k < remain@.len() ==> #[trigger] remain@[k] < n && (remain@[k] == start
                        || found@[remain@[k] as int]),
                forall|j: int, i: int|
                    0 <= j < n && 0 <= i < n && (j == start || found@[j]) && !remain@.contains(
                        j as usize,
                    ) && #[trigger] inv@[j]@[i] ==> found@[i],
            decreases falses(found@) + remain@.len(),
        {
            let ghost before = remain@;
            let node = remain.pop().unwrap();
            let ghost popped = remain@;
            let ghost m0 = falses(found@) + remain@.len();
            assert(before == popped.push(node));
            let mut i: usize = 0;
            while i < n
                invariant
                    b == self@,
                    self.wf(),
                    n == b.len(),
                    start < n,
                    node < n,
                    node == start || found@[node as int],
                    b[start as int].0 == bag@,
                    inverts(b, inv@),
                    found@.len() == n,
                    i <= n,
                    remain@.len() >= popped.len(),
                    falses(found@) + remain@.len() == m0,
                    forall|k: int| 0 <= k < popped.len() ==> remain@[k] == popped[k],
                    forall|x: int| 0 <= x < n && #[trigger] found@[x] ==> reaches(b, b[x].0, bag@),
                    forall|k: int|
                        0 <= k < remain@.len() ==> #[trigger] remain@[k] < n && (remain@[k]
                            == start || found@[remain@[k] as int]),
                    forall|x: int| 0 <= x < i && #[trigger] inv@[node as int]@[x] ==> found@[x],
                    forall|j: int, x: int|
                        0 <= j < n && 0 <= x < n && (j == start || found@[j]) && j != node
                            && !remain@.contains(j as usize) && #[trigger] inv@[j]@[x] ==> found@[x],
                decreases n - i,
            {
                if inv[node][i] && !found[i] {
                    proof {
                        assert(holds_at(b, i as int, node as int));
                        let k = choose|k: int| 0 <= k < b[i as int].1.len() && (#[trigger] b[i as int].1[k]).0 == b[node as int].0;
                        assert(holds(b, b[i as int].0, b[node as int].0));
                        lemma_chain_extend(b, b[i as int].0, b[node as int].0, bag@);
                    }
                    proof {
                        lemma_falses_set(found@, i as int);
                    }
                    let ghost old_found = found@;
                    let ghost old_remain = remain@;
                    found.set(i, true);
                    remain.push(i);
                    proof {
                        assert(remain@ == old_remain.push(i));
                        assert forall|j: int, x: int|
                            0 <= j < n && 0 <= x < n && (j == start || found@[j]) && j != node
                                && !remain@.contains(j as usize) && #[trigger] inv@[j]@[x] implies found@[x] by {
                            assert(remain@[remain@.len() - 1] == i);
                            if j != i {
                                assert(old_found[j] == found@[j]);
                                if old_remain.contains(j as usize) {
                                    let k = choose|k: int| 0 <= k < old_remain.len() && old_remain[k] == j as usize;
                                    assert(remain@[k] == j as usize);
                                }
                            }
                        }
                    }
                }
                i += 1;
            }
            proof {
                assert forall|j: int, x: int|
                    0 <= j < n && 0 <= x < n && (j == start || found@[j]) && !remain@.contains(
                        j as usize,
                    ) && #[trigger] inv@[j]@[x] implies found@[x] by {
                    if j != node {
                    }
                }
            }
        }
        proof {
            assert forall|j: int, i: int|
                0 <= j < n && 0 <= i < n && (j == start || found@[j]) && #[trigger] inv@[j]@[i] implies found@[i] by {
                assert(!remain@.contains(j as usize));
            }
        }
        let mut out: Vec<BagType> = Vec::new();
        let ghost mut idx: Seq<int> = Seq::empty();
        let mut i: usize = 0;
        while i < n
            invariant
                b == self@,
                self.wf(),
                n == b.len(),
                found@.len() == n,
                i <= n,
                idx.len() == out@.len(),
                forall|k: int| 0 <= k < idx.len() ==> 0 <= #[trigger] idx[k] < i && found@[idx[k]],
                forall|k: int, l: int| 0 <= k < l < idx.len() ==> #[trigger] idx[k] < #[trigger] idx[l],
                forall|k: int| 0 <= k < idx.len() ==> (#[trigger] out@[k])@ == b[idx[k]].0,
                forall|x: int| 0 <= x < i && found@[x] ==> exists|k: int| 0 <= k < idx.len() && #[trigger] idx[k] == x,
            decreases n - i,
        {
            if found[i] {
                assert(b[i as int] == self.0@[i as int]@);
                let t = copy_type(&self.0[i].0);
                out.push(t);
                proof {
                    let old_idx = idx;
                    idx = idx.push(i as int);
                    assert(idx[idx.len() - 1] == i);
                    assert forall|x: int| 0 <= x < i + 1 && found@[x] implies exists|k: int| 0 <= k < idx.len() && #[trigger] idx[k] == x by {
                        if x < i {
                            let k = choose|k: int| 0 <= k < old_idx.len() && #[trigger] old_idx[k] == x;
                            assert(idx[k] == x);
                        }
                    }
                }
            }
            i += 1;
        }
        proof {
            let tv = type_views(out@);
            assert forall|k: int| 0 <= k < tv.len() implies tv[k] == b[idx[k]].0 by {}
            assert forall|x: BagView| tv.contains(x) <==> reaches(b, x, bag@) by {
                if tv.contains(x) {
                    let k = choose|k: int| 0 <= k < tv.len() && tv[k] == x;
                    assert(found@[idx[k]]);
                }
                if reaches(b, x, bag@) {
                    let p = choose|p: Seq<BagView>| is_chain(b, p) && p[0] == x && p.last() == bag@;
                    lemma_chain_found(b, inv@, found@, start as int, p, 0);
                    let w = choose|w: int| 0 <= w < b.len() && found@[w] && (#[trigger] b[w]).0 == p[0];
                    let k = choose|k: int| 0 <= k < idx.len() && #[trigger] idx[k] == w;
                    assert(tv[k] == x);
                }
            }
            assert forall|k: int, l: int| 0 <= k < tv.len() && 0 <= l < tv.len() && k != l implies tv[k] != tv[l] by {
                if k < l {
                    assert(idx[k] < idx[l]);
                } else {
                    assert(idx[l] < idx[k]);
                }
            }
        }
        Ok(out)
    }
}

/// No bag holds, directly or inside other bags, a bag of its own type.
pub open spec fn acyclic(b: Seq<PairView>) -> bool {
    forall|t: BagView| !reaches(b, t, t)
}

/// Every chain that starts at `x` has at most `d + 1` bags.
pub open spec fn depth_at_most(b: Seq<PairView>, x: BagView, d: nat) -> bool {
    forall|p: Seq<BagView>| is_chain(b, p) && p[0] == x ==> p.len() <= d + 1
}

proof fn lemma_chain_tail(b: Seq<PairView>, x: BagView, p: Seq<BagView>)
    requires
        is_chain(b, p),
        holds(b, x, p[0]),
    ensures
        is_chain(b, seq![x] + p),
{
    let q = seq![x] + p;
    assert forall|i: int| 0 <= i < q.len() - 1 implies holds(b, #[trigger] q[i], q[i + 1]) by {
        if i > 0 {
            assert(q[i] == p[i - 1] && q[i + 1] == p[i]);
        }
    }
}

proof fn lemma_rules_stable(b: Seq<PairView>, i: int, m: int, d: nat, f: nat, g: nat)
    requires
        keys_distinct(b),
        complete(b),
        0 <= i < b.len(),
        0 <= m <= b[i].1.len(),
        d >= 1,
        depth_at_most(b, b[i].0, d),
        f >= d - 1,
        g >= d - 1,
    ensures
        rules_total(b, b[i].1.subrange(0, m), f) == rules_total(b, b[i].1.subrange(0, m), g),
    decreases d, m,
{
    if m > 0 {
        let rs = b[i].1.subrange(0, m);
        assert(rs.drop_last() =~= b[i].1.subrange(0, m - 1));
        lemma_rules_stable(b, i, m - 1, d, f, g);
        let c = b[i].1[m - 1].0;
        assert(rs.last().0 == c);
        assert(is_key(b, c));
        let w = pos_of(b, c);
        assert(0 <= w < b.len() && b[w].0 == c);
        assert(holds(b, b[i].0, c));
        assert(depth_at_most(b, c, (d - 1) as nat)) by {
            assert forall|p: Seq<BagView>| is_chain(b, p) && p[0] == c implies p.len() <= d by {
                lemma_chain_tail(b, b[i].0, p);
                assert((seq![b[i].0] + p)[0] == b[i].0);
            }
        }
        lemma_total_stable(b, w, (d - 1) as nat, f, g);
    }
}

/// With every chain from pair `i` at most `d + 1` bags long, its total is
/// the same for every fuel of at least `d`.
proof fn lemma_total_stable(b: Seq<PairView>, i: int, d: nat, f: nat, g: nat)
    requires
        keys_distinct(b),
        complete(b),
        0 <= i < b.len(),
        depth_at_most(b, b[i].0, d),
        f >= d,
        g >= d,
    ensures
        bag_total(b, i, f) == bag_total(b, i, g),
    decreases d, b[i].1.len() + 1,
{
    if d == 0 {
        if b[i].1.len() > 0 {
            let p = seq![b[i].0, b[i].1[0].0];
            assert(holds(b, p[0], p[1]));
            assert(is_chain(b, p));
        }
        assert(b[i].1 =~= Seq::empty());
    } else {
        lemma_rules_stable(b, i, b[i].1.len() as int, d, (f - 1) as nat, (g - 1) as nat);
        assert(b[i].1.subrange(0, b[i].1.len() as int) =~= b[i].1);
    }
}

/// In a book without cycles no chain has more bags than there are rules.
proof fn lemma_acyclic_depth(b: Seq<PairView>, x: BagView)
    requires
        keys_distinct(b),
        complete(b),
        acyclic(b),
        b.len() >= 1,
    ensures
        depth_at_most(b, x, (b.len() - 1) as nat),
{
    assert forall|p: Seq<BagView>| is_chain(b, p) && p[0] == x implies p.len() <= b.len() by {
        if p.len() > b.len() {
            let q = p.subrange(0, b.len() + 1int);
            let keys = b.map_values(|e: PairView| e.0).to_set();
            assert forall|v: BagView| q.to_set().contains(v) implies keys.contains(v) by {
                let k = choose|k: int| 0 <= k < q.len() && q[k] == v;
                if k < p.len() - 1 {
                    assert(holds(b, p[k], p[k + 1]));
                    let (i, z) = choose|i: int, z: int|
                        0 <= i < b.len() && (#[trigger] b[i]).0 == p[k] && 0 <= z < b[i].1.len()
                            && (#[trigger] b[i].1[z]).0 == p[k + 1];
                    assert(b.map_values(|e: PairView| e.0)[i] == v);
                } else {
                    assert(holds(b, p[k - 1], p[k]));
                    let (i, z) = choose|i: int, z: int|
                        0 <= i < b.len() && (#[trigger] b[i]).0 == p[k - 1] && 0 <= z < b[i].1.len()
                            && (#[trigger] b[i].1[z]).0 == p[k];
                    assert(is_key(b, b[i].1[z].0));
                    let j = choose|j: int| 0 <= j < b.len() && (#[trigger] b[j]).0 == b[i].1[z].0;
                    assert(b.map_values(|e: PairView| e.0)[j] == v);
                }
            }
            b.map_values(|e: PairView| e.0).lemma_cardinality_of_set();
            vstd::set_lib::lemma_len_subset(q.to_set(), keys);
            if q.no_duplicates() {
                q.unique_seq_to_set();
            }
            let (a, c) = choose|a: int, c: int| 0 <= a < q.len() && 0 <= c < q.len() && a != c && q[a] == q[c];
            let (lo, hi) = if a < c {
                (a, c)
            } else {
                (c, a)
            };
            let r = p.subrange(lo, hi + 1);
            assert forall|k: int| 0 <= k < r.len() - 1 implies holds(b, #[trigger] r[k], r[k + 1]) by {
                assert(r[k] == p[lo + k] && r[k + 1] == p[lo + k + 1]);
            }
            assert(is_chain(b, r) && r[0] == p[lo] && r.last() == p[lo]);
            assert(reaches(b, p[lo], p[lo]));
        }
    }
}

impl RuleBook {
    fn count_at(&self, i: usize, fuel: usize) -> (r: u32)
        requires
            self.wf(),
            i < self@.len(),
            fits(self@, i as int, fuel as nat),
        ensures
            r == bag_total(self@, i as int, fuel as nat),
        decreases fuel,
    {
        if fuel == 0 {
            return 1;
        }
        let ghost b = self@;
        assert(b[i as int] == self.0@[i as int]@);
        let rules = &self.0[i].1;
        let ghost rs = b[i as int].1;
        proof {
            lemma_totals_positive(b, rs, (fuel - 1) as nat, 0);
        }
        let mut acc: u32 = 1;
        let mut k: usize = 0;
        while k < rules.len()
            invariant
                b == self@,
                self.wf(),
                i < b.len(),
                fuel > 0,
                fits(b, i as int, fuel as nat),
                rules == self.0@[i as int].1,
                rs == b[i as int].1,
                rs.len() == rules@.len(),
                k <= rules@.len(),
                acc == 1 + rules_total(b, rs.subrange(0, k as int), (fuel - 1) as nat),
            decreases rules@.len() - k,
        {
            assert(rs[k as int] == (rules@[k as int].0@, rules@[k as int].1));
            assert(is_key(b, rs[k as int].0));
            let x = match find_key(&self.0, &rules[k].0) {
                Some(x) => x,
                None => {
                    proof {
                        let w = choose|w: int| 0 <= w < b.len() && (#[trigger] b[w]).0 == rs[k as int].0;
                        assert(b[w] == self.0@[w]@);
                    }
                    return acc;
                },
            };
            proof {
                assert(b[x as int] == self.0@[x as int]@);
                let w = pos_of(b, rs[k as int].0);
                assert(0 <= w < b.len() && b[w].0 == rs[k as int].0);
                assert(w == x);
                assert(fits(b, pos_of(b, rs[k as int].0), (fuel - 1) as nat));
                assert(rs.subrange(0, k + 1).drop_last() =~= rs.subrange(0, k as int));
                lemma_totals_positive(b, rs, (fuel - 1) as nat, k + 1);
            }
            let c = self.count_at(x, fuel - 1);
            acc = acc + c * rules[k].1;
            k += 1;
        }
        assert(rs.subrange(0, rs.len() as int) =~= rs);
        acc
    }

    /// `Some` of the total of pair `i` at depth `fuel` exactly when every
    /// total met while counting it fits in a `u32`.
    fn count_at_checked(&self, i: usize, fuel: usize) -> (r: Option<u32>)
        requires
            self.wf(),
            i < self@.len(),
        ensures
            match r {
                Some(v) => fits(self@, i as int, fuel as nat) && v == bag_total(
                    self@,
                    i as int,
                    fuel as nat,
                ),
                None => !fits(self@, i as int, fuel as nat),
            },
        decreases fuel,
    {
        if fuel == 0 {
            return Some(1);
        }
        let ghost b = self@;
        assert(b[i as int] == self.0@[i as int]@);
        let rules = &self.0[i].1;
        let ghost rs = b[i as int].1;
        let mut acc: u64 = 1;
        let mut k: usize = 0;
        while k < rules.len()
            invariant
                b == self@,
                self.wf(),
                i < b.len(),
                fuel > 0,
                rules == self.0@[i as int].1,
                rs == b[i as int].1,
                rs.len() == rules@.len(),
                k <= rules@.len(),
                acc <= u32::MAX,
                acc == 1 + rules_total(b, rs.subrange(0, k as int), (fuel - 1) as nat),
                forall|q: int|
                    0 <= q < k ==> fits(b, pos_of(b, (#[trigger] rs[q]).0), (fuel - 1) as nat),
            decreases rules@.len() - k,
        {
            assert(rs[k as int] == (rules@[k as int].0@, rules@[k as int].1));
            assert(is_key(b, rs[k as int].0));
            let x = match find_key(&self.0, &rules[k].0) {
                Some(x) => x,
                None => {
                    proof {
                        let w = choose|w: int| 0 <= w < b.len() && (#[trigger] b[w]).0 == rs[k as int].0;
                        assert(b[w] == self.0@[w]@);
                    }
                    return None;
                },
            };
            proof {
                assert(b[x as int] == self.0@[x as int]@);
                let w = pos_of(b, rs[k as int].0);
                assert(0 <= w < b.len() && b[w].0 == rs[k as int].0);
                assert(w == x);
                assert(rs.subrange(0, k + 1).drop_last() =~= rs.subrange(0, k as int));
                lemma_totals_positive(b, rs, (fuel - 1) as nat, k + 1);
            }
            let c = match self.count_at_checked(x, fuel - 1) {
                Some(c) => c,
                None => {
                    return None;
                },
            };
            let m = rules[k].1;
            assert(c as u64 * m as u64 <= 0xffff_ffff * 0xffff_ffff) by (nonlinear_arith)
                requires
                    c <= 0xffff_ffffu32,
                    m <= 0xffff_ffffu32,
            ;
            let next = acc + c as u64 * m as u64;
            if next > u32::MAX as u64 {
                return None;
            }
            acc = next;
            k += 1;
        }
        assert(rs.subrange(0, rs.len() as int) =~= rs);
        Some(acc as u32)
    }

    /// Like `count`, but for any book: a count that would not fit in a
    /// `u32` is reported as `CountOverflow`.
    pub fn count_checked(&self, bag: &BagType) -> (r: Result<u32, BagError>)
        requires
            self.wf(),
        ensures
            match r {
                Ok(v) => {
                    &&& is_key(self@, bag@)
                    &&& fits(self@, pos_of(self@, bag@), self@.len())
                    &&& v == bag_total(self@, pos_of(self@, bag@), self@.len())
                },
                Err(e) => if is_key(self@, bag@) {
                    e == BagError::CountOverflow && !fits(self@, pos_of(self@, bag@), self@.len())
                } else {
                    e == BagError::UnknownBagType
                },
            },
    {
        let ghost b = self@;
        match find_key(&self.0, bag) {
            Some(i) => {
                proof {
                    assert(b[i as int] == self.0@[i as int]@);
                    let w = pos_of(b, bag@);
                    assert(0 <= w < b.len() && b[w].0 == bag@);
                }
                match self.count_at_checked(i, self.0.len()) {
                    Some(v) => Ok(v),
                    None => Err(BagError::CountOverflow),
                }
            },
            None => {
                proof {
                    if is_key(b, bag@) {
                        let w = choose|w: int| 0 <= w < b.len() && (#[trigger] b[w]).0 == bag@;
                        assert(b[w] == self.0@[w]@);
                    }
                }
                Err(BagError::UnknownBagType)
            },
        }
    }

    /// How many bags one bag of type `bag` stands for, itself included:
    /// one, plus for each type it holds that type's count times the number
    /// held. Chains of holding are followed as deep as there are rules; in a
    /// book without cycles no chain is deeper, so following them further
    /// would change nothing.
    pub fn count(&self, bag: &BagType) -> (r: Result<u32, BagError>)
        requires
            self.wf(),
            is_key(self@, bag@) ==> fits(self@, pos_of(self@, bag@), self@.len()),
        ensures
            match r {
                Ok(v) => {
                    &&& is_key(self@, bag@)
                    &&& v == bag_total(self@, pos_of(self@, bag@), self@.len())
                    &&& acyclic(self@) ==> forall|f: nat|
                        f >= self@.len() ==> v == bag_total(self@, pos_of(self@, bag@), f)
                },
                Err(e) => !is_key(self@, bag@) && e == BagError::UnknownBagType,
            },
    {
        let ghost b = self@;
        match find_key(&self.0, bag) {
            Some(i) => {
                proof {
                    assert(b[i as int] == self.0@[i as int]@);
                    let w = pos_of(b, bag@);
                    assert(0 <= w < b.len() && b[w].0 == bag@);
                }
                let v = self.count_at(i, self.0.len());
                proof {
                    if acyclic(b) {
                        lemma_acyclic_depth(b, bag@);
                        assert forall|f: nat| f >= b.len() implies v == bag_total(b, pos_of(b, bag@), f) by {
                            lemma_total_stable(b, pos_of(b, bag@), (b.len() - 1) as nat, f, b.len());
                        }
                    }
                }
                Ok(v)
            },
            None => {
                proof {
                    if is_key(b, bag@) {
                        let w = choose|w: int| 0 <= w < b.len() && (#[trigger] b[w]).0 == bag@;
                        assert(b[w] == self.0@[w]@);
                    }
                }
                Err(BagError::UnknownBagType)
            },
        }
    }
}

/// A bag type such as `shiny gold bags`.
pub open spec fn bag_type_spec(s: Seq<char>) -> Result<BagView, BagError> {
    let w = words_spec(s);
    if w.len() != 3 {
        Err(BagError::InvalidTypeSyntax)
    } else if w[2] == seq!['b', 'a', 'g'] || w[2] == seq!['b', 'a', 'g', 's'] {
        Ok((w[1], w[0]))
    } else {
        Err(BagError::InvalidTypeSuffix)
    }
}

/// Where the first space of `s` is, or `s.len()` if it has none.
pub open spec fn first_space(s: Seq<char>) -> int
    decreases s.len(),
{
    if s.len() == 0 || s[0] == ' ' {
        0
    } else {
        1 + first_space(s.drop_first())
    }
}

proof fn lemma_first_space(s: Seq<char>, i: int)
    requires
        0 <= i <= s.len(),
        forall|j: int| 0 <= j < i ==> s[j] != ' ',
        i == s.len() || s[i] == ' ',
    ensures
        first_space(s) == i,
    decreases i,
{
    if i > 0 {
        lemma_first_space(s.drop_first(), i - 1);
    }
}

/// A rule such as `2 shiny gold bags`: a number, a space, a bag type.
pub open spec fn bag_rule_spec(s: Seq<char>) -> Result<(BagView, u32), BagError> {
    let t = trim_spec(s);
    let k = first_space(t);
    if k == t.len() {
        Err(BagError::InvalidRuleSyntax)
    } else {
        match bag_type_spec(trim_spec(t.subrange(k + 1, t.len() as int))) {
            Err(e) => Err(e),
            Ok(bt) => match parse_unsigned_spec(trim_spec(t.subrange(0, k)), u32::MAX as int) {
                None => Err(BagError::InvalidNumberFormat),
                Some(v) => Ok((bt, v as u32)),
            },
        }
    }
}

/// The rules of the pieces, or the error of the first piece refused.
pub open spec fn rules_spec(ps: Seq<Seq<char>>) -> Result<Seq<(BagView, u32)>, BagError>
    decreases ps.len(),
{
    if ps.len() == 0 {
        Ok(Seq::empty())
    } else {
        match rules_spec(ps.drop_last()) {
            Err(e) => Err(e),
            Ok(v) => match bag_rule_spec(ps.last()) {
                Err(e) => Err(e),
                Ok(r) => Ok(v.push(r)),
            },
        }
    }
}

pub open spec fn contain_word() -> Seq<char> {
    seq!['c', 'o', 'n', 't', 'a', 'i', 'n']
}

pub open spec fn contain_at(s: Seq<char>, i: int) -> bool {
    0 <= i && i + 7 <= s.len() && s.subrange(i, i + 7) == contain_word()
}

/// How often `contain` occurs in `s` starting before `n`; as the word has
/// no overlap with itself, this is also the number of non-overlapping matches.
pub open spec fn contain_count(s: Seq<char>, n: int) -> nat
    decreases n,
{
    if n <= 0 {
        0
    } else {
        contain_count(s, n - 1) + if contain_at(s, n - 1) {
            1nat
        } else {
            0nat
        }
    }
}

/// Where the first `contain` at or after `i` starts, or `s.len()`.
pub open spec fn first_contain(s: Seq<char>, i: int) -> int
    decreases s.len() - i,
{
    if i < 0 || i + 7 > s.len() {
        s.len() as int
    } else if contain_at(s, i) {
        i
    } else {
        first_contain(s, i + 1)
    }
}

proof fn lemma_first_contain(s: Seq<char>, j: int, i: int)
    requires
        0 <= j <= i,
        i + 7 <= s.len(),
        contain_at(s, i),
        forall|x: int| j <= x < i ==> !contain_at(s, x),
    ensures
        first_contain(s, j) == i,
    decreases i - j,
{
    if j < i {
        lemma_first_contain(s, j + 1, i);
    }
}

pub open spec fn no_other_bags() -> Seq<char> {
    seq!['n', 'o', ' ', 'o', 't', 'h', 'e', 'r', ' ', 'b', 'a', 'g', 's']
}

/// A line such as `light red bags contain 1 bright white bag, 2 muted yellow bags.`
pub open spec fn pair_spec(s: Seq<char>) -> Result<PairView, BagError> {
    let t = trim_spec(s);
    if t.len() == 0 || t.last() != '.' {
        Err(BagError::MissingPairSuffix)
    } else {
        let u = t.drop_last();
        if contain_count(u, u.len() as int) != 1 {
            Err(BagError::InvalidPairSyntax)
        } else {
            let i = first_contain(u, 0);
            match bag_type_spec(trim_spec(u.subrange(0, i))) {
                Err(e) => Err(e),
                Ok(k) => {
                    let values = trim_spec(u.subrange(i + 7, u.len() as int));
                    if values == no_other_bags() {
                        Ok((k, Seq::empty()))
                    } else {
                        match rules_spec(split_on(values, ',')) {
                            Err(e) => Err(e),
                            Ok(rs) => Ok((k, rs)),
                        }
                    }
                },
            }
        }
    }
}

/// The pairs of the lines, or the error of the first line refused.
pub open spec fn pairs_spec(ls: Seq<Seq<char>>) -> Result<Seq<PairView>, BagError>
    decreases ls.len(),
{
    if ls.len() == 0 {
        Ok(Seq::empty())
    } else {
        match pairs_spec(ls.drop_last()) {
            Err(e) => Err(e),
            Ok(v) => match pair_spec(ls.last()) {
                Err(e) => Err(e),
                Ok(p) => Ok(v.push(p)),
            },
        }
    }
}

fn is_word(w: &str, expected: &Vec<char>) -> (r: bool)
    ensures
        r == (w@ == expected@),
{
    let c = chars_of(w);
    if c.len() != expected.len() {
        return false;
    }
    let mut i: usize = 0;
    while i < c.len()
        invariant
            c@ == w@,
            c@.len() == expected@.len(),
            i <= c@.len(),
            forall|k: int| 0 <= k < i ==> c@[k] == expected@[k],
        decreases c@.len() - i,
    {
        if c[i] != expected[i] {
            return false;
        }
        i += 1;
    }
    assert(c@ =~= expected@);
    true
}

impl BagType {
    /// Reads a bag type: a modifier, a colour, then `bag` or `bags`.
    pub fn parse(s: &str) -> (r: Result<BagType, BagError>)
        ensures
            match r {
                Ok(t) => bag_type_spec(s@) == Ok::<BagView, BagError>(t@),
                Err(e) => bag_type_spec(s@) == Err::<BagView, BagError>(e),
            },
    {
        let w = word_slices(s);
        let ghost wv = w@.map_values(|t: &str| t@);
        assert(wv.len() == w@.len());
        if w.len() != 3 {
            return Err(BagError::InvalidTypeSyntax);
        }
        assert(wv[0] == w@[0]@ && wv[1] == w@[1]@ && wv[2] == w@[2]@);
        let bag = vec!['b', 'a', 'g'];
        let bags = vec!['b', 'a', 'g', 's'];
        assert(bag@ =~= seq!['b', 'a', 'g'] && bags@ =~= seq!['b', 'a', 'g', 's']);
        if is_word(w[2], &bag) || is_word(w[2], &bags) {
            Ok(BagType(w[1].to_owned(), w[0].to_owned()))
        } else {
            Err(BagError::InvalidTypeSuffix)
        }
    }
}

impl BagRule {
    /// Reads a rule: a number, a space, a bag type.
    pub fn parse(s: &str) -> (r: Result<BagRule, BagError>)
        ensures
            match r {
                Ok(rule) => bag_rule_spec(s@) == Ok::<(BagView, u32), BagError>(
                    (rule.0@, rule.1),
                ),
                Err(e) => bag_rule_spec(s@) == Err::<(BagView, u32), BagError>(e),
            },
    {
        let t = trim_str(s);
        let c = chars_of(t);
        let mut k: usize = 0;
        while k < c.len() && c[k] != ' '
            invariant
                c@ == t@,
                k <= c@.len(),
                forall|j: int| 0 <= j < k ==> t@[j] != ' ',
            decreases c@.len() - k,
        {
            k += 1;
        }
        proof {
            lemma_first_space(t@, k as int);
        }
        if k == c.len() {
            return Err(BagError::InvalidRuleSyntax);
        }
        let num = trim_str(t.substring_char(0, k));
        let typ = trim_str(t.substring_char(k + 1, c.len()));
        let bt = BagType::parse(typ)?;
        let nc = chars_of(num);
        match parse_unsigned(nc.as_slice(), u32::MAX as u64) {
            None => Err(BagError::InvalidNumberFormat),
            Some(v) => Ok(BagRule(bt, v as u32)),
        }
    }
}

pub open spec fn rule_views(v: Seq<BagRule>) -> Seq<(BagView, u32)> {
    v.map_values(|r: BagRule| (r.0@, r.1))
}

proof fn lemma_rules_err(ps: Seq<Seq<char>>, i: int)
    requires
        0 <= i < ps.len(),
        rules_spec(ps.subrange(0, i)) is Ok,
        bag_rule_spec(ps[i]) is Err,
    ensures
        rules_spec(ps) == Err::<Seq<(BagView, u32)>, BagError>(bag_rule_spec(ps[i])->Err_0),
    decreases ps.len() - i,
{
    if i == ps.len() - 1 {
        assert(ps.drop_last() =~= ps.subrange(0, i));
    } else {
        assert(ps.drop_last().subrange(0, i) =~= ps.subrange(0, i));
        lemma_rules_err(ps.drop_last(), i);
    }
}

proof fn lemma_pairs_err(ls: Seq<Seq<char>>, i: int)
    requires
        0 <= i < ls.len(),
        pairs_spec(ls.subrange(0, i)) is Ok,
        pair_spec(ls[i]) is Err,
    ensures
        pairs_spec(ls) == Err::<Seq<PairView>, BagError>(pair_spec(ls[i])->Err_0),
    decreases ls.len() - i,
{
    if i == ls.len() - 1 {
        assert(ls.drop_last() =~= ls.subrange(0, i));
    } else {
        assert(ls.drop_last().subrange(0, i) =~= ls.subrange(0, i));
        lemma_pairs_err(ls.drop_last(), i);
    }
}

impl RulePair {
    /// Reads one line of rules.
    pub fn parse(s: &str) -> (r: Result<RulePair, BagError>)
        ensures
            match r {
                Ok(p) => pair_spec(s@) == Ok::<PairView, BagError>(p@),
                Err(e) => pair_spec(s@) == Err::<PairView, BagError>(e),
            },
    {
        let t = trim_str(s);
        let tc = chars_of(t);
        if tc.len() == 0 || tc[tc.len() - 1] != '.' {
            return Err(BagError::MissingPairSuffix);
        }
        let u = t.substring_char(0, tc.len() - 1);
        assert(u@ =~= t@.drop_last());
        let uc = chars_of(u);
        let n = uc.len();
        let word = vec!['c', 'o', 'n', 't', 'a', 'i', 'n'];
        assert(word@ =~= contain_word());
        let mut count: usize = 0;
        let mut first: usize = n;
        let mut i: usize = 0;
        while i < n
            invariant
                uc@ == u@,
                n == u@.len(),
                word@ == contain_word(),
                i <= n,
                count == contain_count(u@, i as int),
                count <= i,
                count == 0 ==> first == n && forall|x: int| 0 <= x < i ==> !contain_at(u@, x),
                count > 0 ==> first < i && contain_at(u@, first as int) && forall|x: int|
                    0 <= x < first ==> !contain_at(u@, x),
            decreases n - i,
        {
            let mut hit = n >= 7 && i <= n - 7;
            let mut k: usize = 0;
            while hit && k < 7
                invariant
                    uc@ == u@,
                    n == u@.len(),
                    word@ == contain_word(),
                    i < n,
                    k <= 7,
                    hit ==> i + 7 <= n && forall|z: int| 0 <= z < k ==> u@[i + z] == word@[z],
                    !hit ==> !contain_at(u@, i as int),
                decreases 7 - k,
            {
                if uc[i + k] != word[k] {
                    assert(u@.subrange(i as int, i + 7)[k as int] != contain_word()[k as int]);
                    hit = false;
                }
                k += 1;
            }
            if hit {
                assert(u@.subrange(i as int, i + 7) =~= contain_word());
                if count == 0 {
                    first = i;
                }
                count = count + 1;
            }
            i += 1;
        }
        if count != 1 {
            return Err(BagError::InvalidPairSyntax);
        }
        proof {
            lemma_first_contain(u@, 0, first as int);
        }
        let key = trim_str(u.substring_char(0, first));
        let values = trim_str(u.substring_char(first + 7, n));
        let k = BagType::parse(key)?;
        let none = vec!['n', 'o', ' ', 'o', 't', 'h', 'e', 'r', ' ', 'b', 'a', 'g', 's'];
        assert(none@ =~= no_other_bags());
        if is_word(values, &none) {
            let r = RulePair(k, Vec::new());
            assert(r@.1 =~= Seq::empty());
            return Ok(r);
        }
        let pieces = split_str(values, ',');
        let ghost pv = pieces@.map_values(|x: &str| x@);
        let ghost kv = k@;
        assert(pair_spec(s@) == match rules_spec(pv) {
            Err(e) => Err(e),
            Ok(rs) => Ok::<PairView, BagError>((kv, rs)),
        });
        let mut rules: Vec<BagRule> = Vec::new();
        let mut j: usize = 0;
        assert(rule_views(rules@) =~= Seq::empty());
        assert(pv.subrange(0, 0) =~= Seq::<Seq<char>>::empty());
        while j < pieces.len()
            invariant
                j <= pieces@.len(),
                pv == pieces@.map_values(|x: &str| x@),
                pv == split_on(values@, ','),
                kv == k@,
                pair_spec(s@) == match rules_spec(pv) {
                    Err(e) => Err(e),
                    Ok(rs) => Ok::<PairView, BagError>((kv, rs)),
                },
                rules_spec(pv.subrange(0, j as int)) == Ok::<Seq<(BagView, u32)>, BagError>(
                    rule_views(rules@),
                ),
            decreases pieces@.len() - j,
        {
            assert(pv.subrange(0, j + 1).drop_last() =~= pv.subrange(0, j as int));
            assert(pv[j as int] == pieces@[j as int]@);
            match BagRule::parse(pieces[j]) {
                Ok(rule) => {
                    let ghost before = rule_views(rules@);
                    let ghost rv = (rule.0@, rule.1);
                    rules.push(rule);
                    assert(rule_views(rules@) =~= before.push(rv));
                },
                Err(e) => {
                    proof {
                        lemma_rules_err(pv, j as int);
                    }
                    return Err(e);
                },
            }
            j += 1;
        }
        assert(pv.subrange(0, pv.len() as int) =~= pv);
        let r = RulePair(k, rules);
        assert(r@.1 =~= rule_views(rules@));
        Ok(r)
    }
}

impl RuleBook {
    /// Reads a rule book: one pair per line; then every bag type named must
    /// have a pair, and no type may have two.
    pub fn parse(s: &str) -> (r: Result<RuleBook, BagError>)
        ensures
            match r {
                Ok(book) => pairs_spec(lines_spec(trim_spec(s@))) == Ok::<Seq<PairView>, BagError>(
                    book@,
                ) && book.wf(),
                Err(e) => match pairs_spec(lines_spec(trim_spec(s@))) {
                    Err(pe) => pe == e,
                    Ok(b) => if has_undefined(b) {
                        e == BagError::UndefinedKeys
                    } else {
                        e == BagError::DuplicateKeys && !keys_distinct(b)
                    },
                },
            },
    {
        let t = trim_str(s);
        let tc = chars_of(t);
        let ls: Vec<&str> = if tc.len() == 0 {
            Vec::new()
        } else {
            split_str(t, '\n')
        };
        let ghost lv = ls@.map_values(|x: &str| x@);
        assert(lv =~= lines_spec(trim_spec(s@)));
        let mut pairs: Vec<RulePair> = Vec::new();
        let mut i: usize = 0;
        assert(pairs@.map_values(|p: RulePair| p@) =~= Seq::empty());
        assert(lv.subrange(0, 0) =~= Seq::<Seq<char>>::empty());
        while i < ls.len()
            invariant
                i <= ls@.len(),
                lv == ls@.map_values(|x: &str| x@),
                lv == lines_spec(trim_spec(s@)),
                pairs_spec(lv.subrange(0, i as int)) == Ok::<Seq<PairView>, BagError>(
                    pairs@.map_values(|p: RulePair| p@),
                ),
            decreases ls@.len() - i,
        {
            assert(lv.subrange(0, i + 1).drop_last() =~= lv.subrange(0, i as int));
            assert(lv[i as int] == ls@[i as int]@);
            match RulePair::parse(ls[i]) {
                Ok(p) => {
                    let ghost before = pairs@.map_values(|q: RulePair| q@);
                    let ghost pview = p@;
                    pairs.push(p);
                    assert(pairs@.map_values(|q: RulePair| q@) =~= before.push(pview));
                },
                Err(e) => {
                    proof {
                        lemma_pairs_err(lv, i as int);
                    }
                    return Err(e);
                },
            }
            i += 1;
        }
        assert(lv.subrange(0, lv.len() as int) =~= lv);
        RuleBook::new(pairs)
    }
}

impl std::str::FromStr for RuleBook {
    type Err = BagError;

    fn from_str(s: &str) -> Result<RuleBook, BagError> {
        RuleBook::parse(s)
    }
}

impl std::str::FromStr for BagType {
    type Err = BagError;

    fn from_str(s: &str) -> Result<BagType, BagError> {
        BagType::parse(s)
    }
}

impl std::str::FromStr for BagRule {
    type Err = BagError;

    fn from_str(s: &str) -> Result<BagRule, BagError> {
        BagRule::parse(s)
    }
}

impl std::str::FromStr for RulePair {
    type Err = BagError;

    fn from_str(s: &str) -> Result<RulePair, BagError> {
        RulePair::parse(s)
    }
}

} // verus!
