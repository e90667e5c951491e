//! Minimum-cost alignment of two sequences (Wagner–Fischer) with a
//! deterministic backtrace into an edit script.
use vstd::prelude::*;

verus! {

/// One step of an edit script.
#[derive(Debug)]
pub enum DiffElement<T> {
    /// The element occurs, unchanged, in both sequences.
    Equal(T),
    /// The element occurs in the first sequence only.
    Insert1(T),
    /// The element occurs in the second sequence only.
    Insert2(T),
    /// An element of the first sequence aligned with a different one of the second.
    Different(T, T),
}

impl<T: View> View for DiffElement<T> {
    type V = DiffElement<T::V>;

    open spec fn view(&self) -> DiffElement<T::V> {
        match self {
            DiffElement::Equal(x) => DiffElement::Equal(x@),
            DiffElement::Insert1(x) => DiffElement::Insert1(x@),
            DiffElement::Insert2(x) => DiffElement::Insert2(x@),
            DiffElement::Different(x, y) => DiffElement::Different(x@, y@),
        }
    }
}

/// The views of the elements of `s`.
pub open spec fn views<T: View>(s: Seq<T>) -> Seq<T::V> {
    s.map_values(|x: T| x@)
}

/// The smaller of `x` and `y`.
pub open spec fn min_nat(x: nat, y: nat) -> nat {
    if x <= y {
        x
    } else {
        y
    }
}

/// Cell `(i, j)` of the cost table: the least cost of turning the first `i`
/// elements of `a` into the first `j` elements of `b`, where inserting or
/// deleting one element costs `k` and aligning `x` with `y` costs `c(x, y)`.
pub open spec fn cost_table<V>(
    a: Seq<V>,
    b: Seq<V>,
    c: spec_fn(V, V) -> nat,
    k: nat,
    i: nat,
    j: nat,
) -> nat
    decreases i + j,
{
    if i == 0 {
        j * k
    } else if j == 0 {
        i * k
    } else {
        let up = cost_table(a, b, c, k, (i - 1) as nat, j) + k;
        let left = cost_table(a, b, c, k, i, (j - 1) as nat) + k;
        let diag = cost_table(a, b, c, k, (i - 1) as nat, (j - 1) as nat) + c(a[i - 1], b[j - 1]);
        min_nat(min_nat(up, left), diag)
    }
}

/// The edit script read back from cell `(i, j)` to `(0, 0)`, trying at each
/// step an equal diagonal, a substituting diagonal, a step that consumes
/// from `a` only, and last a step that consumes from `b` only.
pub open spec fn backtrace<V>(
    a: Seq<V>,
    b: Seq<V>,
    c: spec_fn(V, V) -> nat,
    k: nat,
    i: nat,
    j: nat,
) -> Seq<DiffElement<V>>
    decreases i + j,
{
    let v = cost_table(a, b, c, k, i, j);
    if i > 0 && j > 0 && v == cost_table(a, b, c, k, (i - 1) as nat, (j - 1) as nat) && a[i
        - 1] == b[j - 1] {
        backtrace(a, b, c, k, (i - 1) as nat, (j - 1) as nat).push(DiffElement::Equal(a[i - 1]))
    } else if i > 0 && j > 0 && v == cost_table(a, b, c, k, (i - 1) as nat, (j - 1) as nat) + c(
        a[i - 1],
        b[j - 1],
    ) {
        backtrace(a, b, c, k, (i - 1) as nat, (j - 1) as nat).push(
            DiffElement::Different(a[i - 1], b[j - 1]),
        )
    } else if i > 0 && v == cost_table(a, b, c, k, (i - 1) as nat, j) + k {
        backtrace(a, b, c, k, (i - 1) as nat, j).push(DiffElement::Insert1(a[i - 1]))
    } else if j > 0 {
        backtrace(a, b, c, k, i, (j - 1) as nat).push(DiffElement::Insert2(b[j - 1]))
    } else {
        Seq::empty()
    }
}

/// The least total cost of aligning `a` with `b`.
pub open spec fn distance<V>(a: Seq<V>, b: Seq<V>, c: spec_fn(V, V) -> nat, k: nat) -> nat {
    cost_table(a, b, c, k, a.len(), b.len())
}

/// The edit script that the alignment of `a` with `b` produces.
pub open spec fn alignment<V>(a: Seq<V>, b: Seq<V>, c: spec_fn(V, V) -> nat, k: nat) -> Seq<
    DiffElement<V>,
> {
    backtrace(a, b, c, k, a.len(), b.len())
}

/// The elements of the first sequence that a script accounts for, in order.
pub open spec fn firsts<V>(s: Seq<DiffElement<V>>) -> Seq<V>
    decreases s.len(),
{
    if s.len() == 0 {
        Seq::empty()
    } else {
        let rest = firsts(s.drop_last());
        match s.last() {
            DiffElement::Equal(x) => rest.push(x),
            DiffElement::Insert1(x) => rest.push(x),
            DiffElement::Insert2(_) => rest,
            DiffElement::Different(x, _) => rest.push(x),
        }
    }
}

/// The elements of the second sequence that a script accounts for, in order.
pub open spec fn seconds<V>(s: Seq<DiffElement<V>>) -> Seq<V>
    decreases s.len(),
{
    if s.len() == 0 {
        Seq::empty()
    } else {
        let rest = seconds(s.drop_last());
        match s.last() {
            DiffElement::Equal(y) => rest.push(y),
            DiffElement::Insert1(_) => rest,
            DiffElement::Insert2(y) => rest.push(y),
            DiffElement::Different(_, y) => rest.push(y),
        }
    }
}

/// What a script costs: nothing for an equal step, `k` for a step on one
/// side only, `c(x, y)` for a substitution.
pub open spec fn script_cost<V>(s: Seq<DiffElement<V>>, c: spec_fn(V, V) -> nat, k: nat) -> nat
    decreases s.len(),
{
    if s.len() == 0 {
        0
    } else {
        let rest = script_cost(s.drop_last(), c, k);
        match s.last() {
            DiffElement::Equal(_) => rest,
            DiffElement::Insert1(_) => rest + k,
            DiffElement::Insert2(_) => rest + k,
            DiffElement::Different(x, y) => rest + c(x, y),
        }
    }
}

proof fn lemma_mul_pred(x: nat, k: nat)
    requires
        x > 0,
    ensures
        (x - 1) as nat * k + k == x * k,
{
    assert((x - 1) as nat * k + k == x * k) by (nonlinear_arith)
        requires
            x > 0,
    ;
}

/// Every cell is at most the cost of inserting everything.
pub proof fn lemma_cost_table_bound<V>(
    a: Seq<V>,
    b: Seq<V>,
    c: spec_fn(V, V) -> nat,
    k: nat,
    i: nat,
    j: nat,
)
    ensures
        cost_table(a, b, c, k, i, j) <= k * (i + j),
    decreases i + j,
{
    if i > 0 && j > 0 {
        lemma_cost_table_bound(a, b, c, k, (i - 1) as nat, j);
        assert(k * ((i - 1) as nat + j) + k == k * (i + j)) by (nonlinear_arith)
            requires
                i > 0,
        ;
    } else if i == 0 {
        assert(j * k <= k * (i + j)) by (nonlinear_arith)
            requires
                i == 0,
        ;
    } else {
        assert(i * k <= k * (i + j)) by (nonlinear_arith)
            requires
                j == 0,
        ;
    }
}

/// The script read back from cell `(i, j)` accounts for the first `i`
/// elements of `a` and the first `j` of `b`, in order, and costs exactly
/// what the cell holds.
pub proof fn lemma_backtrace_sound<V>(
    a: Seq<V>,
    b: Seq<V>,
    c: spec_fn(V, V) -> nat,
    k: nat,
    i: nat,
    j: nat,
)
    requires
        i <= a.len(),
        j <= b.len(),
    ensures
        firsts(backtrace(a, b, c, k, i, j)) == a.take(i as int),
        seconds(backtrace(a, b, c, k, i, j)) == b.take(j as int),
        script_cost(backtrace(a, b, c, k, i, j), c, k) == cost_table(a, b, c, k, i, j),
    decreases i + j,
{
    let v = cost_table(a, b, c, k, i, j);
    let s = backtrace(a, b, c, k, i, j);
    if i == 0 && j == 0 {
        assert(a.take(0) =~= Seq::<V>::empty());
        assert(b.take(0) =~= Seq::<V>::empty());
    } else if i > 0 && j > 0 && v == cost_table(a, b, c, k, (i - 1) as nat, (j - 1) as nat) && a[i
        - 1] == b[j - 1] {
        lemma_backtrace_sound(a, b, c, k, (i - 1) as nat, (j - 1) as nat);
        assert(s.drop_last() == backtrace(a, b, c, k, (i - 1) as nat, (j - 1) as nat));
        assert(a.take(i as int) =~= a.take(i - 1).push(a[i - 1]));
        assert(b.take(j as int) =~= b.take(j - 1).push(b[j - 1]));
    } else if i > 0 && j > 0 && v == cost_table(a, b, c, k, (i - 1) as nat, (j - 1) as nat) + c(
        a[i - 1],
        b[j - 1],
    ) {
        lemma_backtrace_sound(a, b, c, k, (i - 1) as nat, (j - 1) as nat);
        assert(s.drop_last() == backtrace(a, b, c, k, (i - 1) as nat, (j - 1) as nat));
        assert(a.take(i as int) =~= a.take(i - 1).push(a[i - 1]));
        assert(b.take(j as int) =~= b.take(j - 1).push(b[j - 1]));
    } else if i > 0 && v == cost_table(a, b, c, k, (i - 1) as nat, j) + k {
        lemma_backtrace_sound(a, b, c, k, (i - 1) as nat, j);
        assert(s.drop_last() == backtrace(a, b, c, k, (i - 1) as nat, j));
        assert(a.take(i as int) =~= a.take(i - 1).push(a[i - 1]));
    } else {
        if i > 0 && j == 0 {
            lemma_mul_pred(i, k);
        }
        assert(j > 0);
        if i == 0 {
            lemma_mul_pred(j, k);
        }
        assert(v == cost_table(a, b, c, k, i, (j - 1) as nat) + k);
        lemma_backtrace_sound(a, b, c, k, i, (j - 1) as nat);
        assert(s.drop_last() == backtrace(a, b, c, k, i, (j - 1) as nat));
        assert(b.take(j as int) =~= b.take(j - 1).push(b[j - 1]));
    }
}

/// The script that marks every element of `a` as equal.
pub open spec fn all_equal<V>(a: Seq<V>) -> Seq<DiffElement<V>> {
    a.map_values(|x: V| DiffElement::Equal(x))
}

proof fn lemma_table_self<V>(a: Seq<V>, c: spec_fn(V, V) -> nat, k: nat, i: nat)
    requires
        i <= a.len(),
        forall|x: V| #[trigger] c(x, x) == 0,
    ensures
        cost_table(a, a, c, k, i, i) == 0,
        backtrace(a, a, c, k, i, i) == all_equal(a.take(i as int)),
    decreases i,
{
    if i == 0 {
        assert(all_equal(a.take(0)) =~= Seq::<DiffElement<V>>::empty());
    } else {
        lemma_table_self(a, c, k, (i - 1) as nat);
        assert(c(a[i - 1], a[i - 1]) == 0);
        assert(all_equal(a.take(i as int)) =~= all_equal(a.take(i - 1)).push(
            DiffElement::Equal(a[i - 1]),
        ));
    }
}

/// Aligning a sequence with itself costs nothing and marks every element
/// as equal, provided that aligning an element with itself costs nothing.
pub proof fn lemma_align_self<V>(a: Seq<V>, c: spec_fn(V, V) -> nat, k: nat)
    requires
        forall|x: V| #[trigger] c(x, x) == 0,
    ensures
        distance(a, a, c, k) == 0,
        alignment(a, a, c, k) == all_equal(a),
        alignment(a, a, c, k).len() == a.len(),
{
    lemma_table_self(a, c, k, a.len());
    assert(a.take(a.len() as int) =~= a);
}

proof fn lemma_table_symmetric<V>(
    a: Seq<V>,
    b: Seq<V>,
    c: spec_fn(V, V) -> nat,
    k: nat,
    i: nat,
    j: nat,
)
    requires
        forall|x: V, y: V| #[trigger] c(x, y) == c(y, x),
    ensures
        cost_table(a, b, c, k, i, j) == cost_table(b, a, c, k, j, i),
    decreases i + j,
{
    if i > 0 && j > 0 {
        lemma_table_symmetric(a, b, c, k, (i - 1) as nat, j);
        lemma_table_symmetric(a, b, c, k, i, (j - 1) as nat);
        lemma_table_symmetric(a, b, c, k, (i - 1) as nat, (j - 1) as nat);
        assert(c(a[i - 1], b[j - 1]) == c(b[j - 1], a[i - 1]));
    }
}

/// With a symmetric substitution cost, aligning `a` with `b` costs what
/// aligning `b` with `a` costs.
pub proof fn lemma_distance_symmetric<V>(a: Seq<V>, b: Seq<V>, c: spec_fn(V, V) -> nat, k: nat)
    requires
        forall|x: V, y: V| #[trigger] c(x, y) == c(y, x),
    ensures
        distance(a, b, c, k) == distance(b, a, c, k),
{
    lemma_table_symmetric(a, b, c, k, a.len(), b.len());
}

/// The larger of `x` and `y`.
pub open spec fn max_nat(x: nat, y: nat) -> nat {
    if x >= y {
        x
    } else {
        y
    }
}

proof fn lemma_table_bound_max<V>(
    a: Seq<V>,
    b: Seq<V>,
    c: spec_fn(V, V) -> nat,
    k: nat,
    i: nat,
    j: nat,
)
    requires
        forall|x: V, y: V| #[trigger] c(x, y) <= k,
    ensures
        cost_table(a, b, c, k, i, j) <= k * max_nat(i, j),
    decreases i + j,
{
    if i > 0 && j > 0 {
        lemma_table_bound_max(a, b, c, k, (i - 1) as nat, (j - 1) as nat);
        assert(c(a[i - 1], b[j - 1]) <= k);
        lemma_mul_pred(max_nat(i, j), k);
        let m1 = max_nat((i - 1) as nat, (j - 1) as nat);
        assert(m1 == (max_nat(i, j) - 1) as nat);
        assert(k * m1 == m1 * k) by (nonlinear_arith);
        assert(k * max_nat(i, j) == max_nat(i, j) * k) by (nonlinear_arith);
    } else if i == 0 {
        assert(j * k == k * max_nat(i, j)) by (nonlinear_arith)
            requires
                i == 0,
        ;
    } else {
        assert(i * k == k * max_nat(i, j)) by (nonlinear_arith)
            requires
                j == 0,
        ;
    }
}

/// When no substitution costs more than an insertion, aligning `a` with `b`
/// costs at most one insertion per element of the longer sequence.
pub proof fn lemma_distance_bound<V>(a: Seq<V>, b: Seq<V>, c: spec_fn(V, V) -> nat, k: nat)
    requires
        forall|x: V, y: V| #[trigger] c(x, y) <= k,
    ensures
        distance(a, b, c, k) <= k * max_nat(a.len(), b.len()),
{
    lemma_table_bound_max(a, b, c, k, a.len(), b.len());
}

/// The views of the steps of `w`, last step first.
pub open spec fn rev_views<T: View>(w: Seq<DiffElement<T>>) -> Seq<DiffElement<T::V>> {
    Seq::new(w.len(), |t: int| w[w.len() - 1 - t]@)
}

proof fn lemma_rev_views_push<T: View>(w: Seq<DiffElement<T>>, e: DiffElement<T>)
    ensures
        rev_views(w.push(e)) == seq![e@] + rev_views(w),
{
    assert(rev_views(w.push(e)) =~= seq![e@] + rev_views(w));
}

proof fn lemma_views_push<T: View>(s: Seq<T>, x: T)
    ensures
        views(s.push(x)) == views(s).push(x@),
{
    assert(views(s.push(x)) =~= views(s).push(x@));
}

proof fn lemma_mul_succ(k: nat, x: nat)
    ensures
        k * x + k == k * (x + 1),
        x * k == k * x,
{
    assert(k * x + k == k * (x + 1)) by (nonlinear_arith);
    assert(x * k == k * x) by (nonlinear_arith);
}

proof fn lemma_mul_mono(k: nat, x: nat, y: nat)
    requires
        x <= y,
    ensures
        k * x <= k * y,
{
    assert(k * x <= k * y) by (nonlinear_arith)
        requires
            x <= y,
    ;
}

/// Aligns `text1` with `text2`: `same` tells whether two elements are equal,
/// `cmp` gives the cost `c` of aligning one with the other, and inserting or
/// deleting one element costs `icost`. Returns the least total cost and the
/// edit script read back from the cost table.
pub(crate) fn edit_distance<T: View + Copy, E: Fn(&T, &T) -> bool, F: Fn(&T, &T) -> u64>(
    text1: &Vec<T>,
    text2: &Vec<T>,
    same: E,
    cmp: F,
    icost: u64,
    Ghost(c): Ghost<spec_fn(T::V, T::V) -> nat>,
) -> (r: (u64, Vec<DiffElement<T>>))
    requires
        icost > 0,
        icost * (text1.len() + text2.len()) <= u64::MAX,
        forall|i: int, j: int|
            #![trigger text1[i], text2[j]]
            0 <= i < text1.len() && 0 <= j < text2.len() ==> same.requires((&text1[i], &text2[j]))
                && cmp.requires((&text1[i], &text2[j])),
        forall|x: &T, y: &T, e: bool| #[trigger] same.ensures((x, y), e) ==> e == (x@ == y@),
        forall|x: &T, y: &T, d: u64| #[trigger] cmp.ensures((x, y), d) ==> d == c(x@, y@),
        forall|x: T::V| #[trigger] c(x, x) == 0,
    ensures
        r.0 == distance(views(text1@), views(text2@), c, icost as nat),
        views(r.1@) == alignment(views(text1@), views(text2@), c, icost as nat),
{
    let n = text1.len();
    let m = text2.len();
    let ghost a = views(text1@);
    let ghost b = views(text2@);
    let ghost k = icost as nat;
    if n == m {
        let mut i: usize = 0;
        let mut alike = true;
        while i < n && alike
            invariant
                i <= n,
                n == m,
                n == text1.len(),
                m == text2.len(),
                a == views(text1@),
                b == views(text2@),
                alike ==> forall|t: int| 0 <= t < i ==> a[t] == b[t],
                forall|i: int, j: int|
                    #![trigger text1[i], text2[j]]
                    0 <= i < text1.len() && 0 <= j < text2.len() ==> same.requires(
                        (&text1[i], &text2[j]),
                    ),
                forall|x: &T, y: &T, e: bool| #[trigger] same.ensures((x, y), e) ==> e == (x@ == y@),
            decreases n - i,
        {
            alike = same(&text1[i], &text2[i]);
            i += 1;
        }
        if alike {
            proof {
                assert(a =~= b);
                lemma_align_self(a, c, k);
            }
            let mut script: Vec<DiffElement<T>> = Vec::new();
            let mut t: usize = 0;
            while t < n
                invariant
                    t <= n,
                    n == text1.len(),
                    a == views(text1@),
                    views(script@) == all_equal(a.take(t as int)),
                decreases n - t,
            {
                proof {
                    lemma_views_push(script@, DiffElement::Equal(text1[t as int]));
                    assert(all_equal(a.take(t + 1)) =~= all_equal(a.take(t as int)).push(
                        DiffElement::Equal(a[t as int]),
                    ));
                }
                script.push(DiffElement::Equal(text1[t]));
                t += 1;
            }
            proof {
                assert(a.take(n as int) =~= a);
            }
            return (0, script);
        }
    }
    // Row 0 of the cost table.

    let mut row0: Vec<u64> = Vec::new();
    row0.push(0);
    let mut j: usize = 0;
    while j < m
        invariant
            j <= m,
            m == text2.len(),
            n == text1.len(),
            k == icost,
            icost * (n + m) <= u64::MAX,
            row0.len() == j + 1,
            forall|jj: int| 0 <= jj <= j ==> row0[jj] == cost_table(a, b, c, k, 0, jj as nat),
        decreases m - j,
    {
        proof {
            lemma_mul_mono(k, (j + 1) as nat, (n + m) as nat);
            lemma_mul_succ(k, j as nat);
            lemma_mul_succ(k, (j + 1) as nat);
        }
        row0.push(icost * (j + 1) as u64);
        j += 1;
    }
    let mut table: Vec<Vec<u64>> = Vec::new();
    table.push(row0);
    // Rows 1 to n.
    let mut i: usize = 0;
    while i < n
        invariant
            i <= n,
            m == text2.len(),
            n == text1.len(),
            a == views(text1@),
            b == views(text2@),
            k == icost,
            icost * (n + m) <= u64::MAX,
            table.len() == i + 1,
            forall|ii: int| 0 <= ii <= i ==> #[trigger] table[ii].len() == m + 1,
            forall|ii: int, jj: int|
                0 <= ii <= i && 0 <= jj <= m ==> #[trigger] table[ii][jj] == cost_table(
                    a,
                    b,
                    c,
                    k,
                    ii as nat,
                    jj as nat,
                ),
            forall|i: int, j: int|
                #![trigger text1[i], text2[j]]
                0 <= i < text1.len() && 0 <= j < text2.len() ==> cmp.requires(
                    (&text1[i], &text2[j]),
                ),
            forall|x: &T, y: &T, d: u64| #[trigger] cmp.ensures((x, y), d) ==> d == c(x@, y@),
        decreases n - i,
    {
        proof {
            lemma_mul_mono(k, (i + 1) as nat, (n + m) as nat);
            lemma_mul_succ(k, (i + 1) as nat);
        }
        let mut row: Vec<u64> = Vec::new();
        row.push(icost * (i + 1) as u64);
        let mut j: usize = 0;
        while j < m
            invariant
                i < n,
                j <= m,
                m == text2.len(),
                n == text1.len(),
                a == views(text1@),
                b == views(text2@),
                k == icost,
                icost * (n + m) <= u64::MAX,
                table.len() == i + 1,
                forall|ii: int| 0 <= ii <= i ==> #[trigger] table[ii].len() == m + 1,
                forall|ii: int, jj: int|
                    0 <= ii <= i && 0 <= jj <= m ==> #[trigger] table[ii][jj] == cost_table(
                        a,
                        b,
                        c,
                        k,
                        ii as nat,
                        jj as nat,
                    ),
                row.len() == j + 1,
                forall|jj: int|
                    0 <= jj <= j ==> #[trigger] row[jj] == cost_table(
                        a,
                        b,
                        c,
                        k,
                        (i + 1) as nat,
                        jj as nat,
                    ),
                forall|i: int, j: int|
                    #![trigger text1[i], text2[j]]
                    0 <= i < text1.len() && 0 <= j < text2.len() ==> cmp.requires(
                        (&text1[i], &text2[j]),
                    ),
                forall|x: &T, y: &T, d: u64| #[trigger] cmp.ensures((x, y), d) ==> d == c(x@, y@),
            decreases m - j,
        {
            proof {
                lemma_cost_table_bound(a, b, c, k, i as nat, (j + 1) as nat);
                lemma_cost_table_bound(a, b, c, k, (i + 1) as nat, j as nat);
                lemma_mul_mono(k, (i + j + 2) as nat, (n + m) as nat);
                lemma_mul_succ(k, (i + j + 1) as nat);
                assert(table[i as int].len() == m + 1);
            }
            let up = table[i][j + 1] + icost;
            let left = row[j] + icost;
            let d = cmp(&text1[i], &text2[j]);
            let base = table[i][j];
            let best = if up <= left {
                up
            } else {
                left
            };
            let v = if d <= best && base <= best - d {
                base + d
            } else {
                best
            };
            row.push(v);
            j += 1;
        }
        table.push(row);
        i += 1;
    }
    // Read the script back from cell (n, m), last step first.

    let mut walk: Vec<DiffElement<T>> = Vec::new();
    let mut p1: usize = n;
    let mut p2: usize = m;
    while p1 > 0 || p2 > 0
        invariant
            p1 <= n,
            p2 <= m,
            m == text2.len(),
            n == text1.len(),
            a == views(text1@),
            b == views(text2@),
            k == icost,
            icost * (n + m) <= u64::MAX,
            table.len() == n + 1,
            forall|ii: int| 0 <= ii <= n ==> #[trigger] table[ii].len() == m + 1,
            forall|ii: int, jj: int|
                0 <= ii <= n && 0 <= jj <= m ==> #[trigger] table[ii][jj] == cost_table(
                    a,
                    b,
                    c,
                    k,
                    ii as nat,
                    jj as nat,
                ),
            alignment(a, b, c, k) == backtrace(a, b, c, k, p1 as nat, p2 as nat) + rev_views(
                walk@,
            ),
            forall|i: int, j: int|
                #![trigger text1[i], text2[j]]
                0 <= i < text1.len() && 0 <= j < text2.len() ==> same.requires(
                    (&text1[i], &text2[j]),
                ) && cmp.requires((&text1[i], &text2[j])),
            forall|x: &T, y: &T, e: bool| #[trigger] same.ensures((x, y), e) ==> e == (x@ == y@),
            forall|x: &T, y: &T, d: u64| #[trigger] cmp.ensures((x, y), d) ==> d == c(x@, y@),
        decreases p1 + p2,
    {
        let ghost prev = backtrace(a, b, c, k, p1 as nat, p2 as nat);
        let ghost old_walk = walk@;
        proof {
            assert(table[p1 as int].len() == m + 1);
        }
        let val = table[p1][p2];
        let mut stepped = false;
        if p1 > 0 && p2 > 0 {
            proof {
                assert(table[p1 - 1].len() == m + 1);
            }
            let base = table[p1 - 1][p2 - 1];
            if val == base && same(&text1[p1 - 1], &text2[p2 - 1]) {
                walk.push(DiffElement::Equal(text1[p1 - 1]));
                stepped = true;
            } else {
                let d = cmp(&text1[p1 - 1], &text2[p2 - 1]);
                if d <= val && base == val - d {
                    walk.push(DiffElement::Different(text1[p1 - 1], text2[p2 - 1]));
                    stepped = true;
                }
            }
            if stepped {
                p1 -= 1;
                p2 -= 1;
            }
        }
        if !stepped {
            proof {
                lemma_cost_table_bound(a, b, c, k, (n + m) as nat, 0);
                if p1 > 0 {
                    lemma_cost_table_bound(a, b, c, k, (p1 - 1) as nat, p2 as nat);
                    lemma_mul_mono(k, (p1 - 1 + p2 + 1) as nat, (n + m) as nat);
                    lemma_mul_succ(k, (p1 - 1 + p2) as nat);
                    assert(table[p1 - 1].len() == m + 1);
                }
                if p1 > 0 && p2 == 0 {
                    lemma_mul_pred(p1 as nat, k);
                }
            }
            if p1 > 0 && val == table[p1 - 1][p2] + icost {
                walk.push(DiffElement::Insert1(text1[p1 - 1]));
                p1 -= 1;
            } else {
                walk.push(DiffElement::Insert2(text2[p2 - 1]));
                p2 -= 1;
            }
        }
        proof {
            let e = walk@.last();
            assert(walk@ == old_walk.push(e));
            lemma_rev_views_push(old_walk, e);
            assert(prev == backtrace(a, b, c, k, p1 as nat, p2 as nat).push(e@));
            assert(backtrace(a, b, c, k, p1 as nat, p2 as nat) + rev_views(walk@) =~= prev
                + rev_views(old_walk));
        }
    }
    // Put the steps in order.

    let mut script: Vec<DiffElement<T>> = Vec::new();
    while walk.len() > 0
        invariant
            views(script@) + rev_views(walk@) == alignment(a, b, c, k),
        decreases walk.len(),
    {
        let ghost old_walk = walk@;
        let ghost old_script = script@;
        let e = walk.pop().unwrap();
        proof {
            assert(old_walk == walk@.push(e));
            lemma_rev_views_push(walk@, e);
            lemma_views_push(script@, e);
        }
        script.push(e);
        proof {
            assert(views(script@) + rev_views(walk@) =~= views(old_script) + rev_views(old_walk));
        }
    }
    proof {
        assert(views(script@) =~= views(script@) + rev_views(walk@));
        assert(table[n as int].len() == m + 1);
    }
    (table[n][m], script)
}

} // verus!
