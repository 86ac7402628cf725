//! Lexicographic order on text and on rows of text, and the sorted,
//! duplicate-free row sets that the hierarchy is built from.
use vstd::prelude::*;

verus! {

/// The first `i` elements of `a` and `b` agree.
pub open spec fn agree_upto<A>(a: Seq<A>, b: Seq<A>, i: int) -> bool {
    &&& 0 <= i <= a.len()
    &&& i <= b.len()
    &&& forall|k: int| 0 <= k < i ==> a[k] == b[k]
}

/// `a` is below `b` at position `i`, given agreement before it.
pub open spec fn lex_at<A>(a: Seq<A>, b: Seq<A>, i: int, lt: spec_fn(A, A) -> bool) -> bool {
    ||| (i < a.len() && i < b.len() && lt(a[i], b[i]))
    ||| (i == a.len() && i < b.len())
}

/// Lexicographic order induced by the element order `lt`.
pub open spec fn lex_lt<A>(a: Seq<A>, b: Seq<A>, lt: spec_fn(A, A) -> bool) -> bool {
    exists|i: int| #[trigger] agree_upto(a, b, i) && lex_at(a, b, i, lt)
}

/// `lt` is a strict total order.
pub open spec fn strict_total<A>(lt: spec_fn(A, A) -> bool) -> bool {
    &&& forall|x: A| !(#[trigger] lt(x, x))
    &&& forall|x: A, y: A, z: A| #[trigger] lt(x, y) && #[trigger] lt(y, z) ==> lt(x, z)
    &&& forall|x: A, y: A| x != y ==> #[trigger] lt(x, y) || #[trigger] lt(y, x)
}

/// Characters ordered by code point.
pub open spec fn char_lt() -> spec_fn(char, char) -> bool {
    |x: char, y: char| (x as u32) < (y as u32)
}

/// Text ordered by code point, character by character; a proper prefix comes first.
/// On UTF-8 text this is the byte order.
pub open spec fn text_lt() -> spec_fn(Seq<char>, Seq<char>) -> bool {
    |x: Seq<char>, y: Seq<char>| lex_lt(x, y, char_lt())
}

/// Rows of text ordered column by column.
pub open spec fn row_lt(a: Seq<Seq<char>>, b: Seq<Seq<char>>) -> bool {
    lex_lt(a, b, text_lt())
}

/// Every earlier row is below every later one: sorted, and no row twice.
pub open spec fn strictly_sorted(s: Seq<Seq<Seq<char>>>) -> bool {
    forall|i: int, j: int| 0 <= i < j < s.len() ==> row_lt(#[trigger] s[i], #[trigger] s[j])
}

/// The view of a row of text cells.
pub open spec fn row_view(r: Vec<String>) -> Seq<Seq<char>> {
    r@.map_values(|s: String| s@)
}

/// The view of a sequence of rows.
pub open spec fn rows_view(rows: Seq<Vec<String>>) -> Seq<Seq<Seq<char>>> {
    rows.map_values(|r: Vec<String>| row_view(r))
}

proof fn lemma_lex_strict_total<A>(lt: spec_fn(A, A) -> bool)
    requires
        strict_total(lt),
    ensures
        strict_total(|x: Seq<A>, y: Seq<A>| lex_lt(x, y, lt)),
{
    let l = |x: Seq<A>, y: Seq<A>| lex_lt(x, y, lt);
    assert forall|x: Seq<A>| !(#[trigger] l(x, x)) by {
        if lex_lt(x, x, lt) {
            let i = choose|i: int| #[trigger] agree_upto(x, x, i) && lex_at(x, x, i, lt);
        }
    }
    assert forall|x: Seq<A>, y: Seq<A>, z: Seq<A>| #[trigger] l(x, y) && #[trigger] l(y, z) implies l(x, z) by {
        let i = choose|i: int| #[trigger] agree_upto(x, y, i) && lex_at(x, y, i, lt);
        let j = choose|j: int| #[trigger] agree_upto(y, z, j) && lex_at(y, z, j, lt);
        if i < j {
            assert(agree_upto(x, z, i));
            assert(lex_at(x, z, i, lt));
        } else if j < i {
            assert(agree_upto(x, z, j));
            assert(lex_at(x, z, j, lt));
        } else {
            assert(agree_upto(x, z, i));
            assert(lex_at(x, z, i, lt));
        }
    }
    assert forall|x: Seq<A>, y: Seq<A>| x != y implies #[trigger] l(x, y) || #[trigger] l(y, x) by {
        let n = if x.len() < y.len() { x.len() as int } else { y.len() as int };
        if forall|k: int| 0 <= k < n ==> x[k] == y[k] {
            if x.len() == y.len() {
                assert(x =~= y);
            } else if x.len() < y.len() {
                assert(agree_upto(x, y, n));
            } else {
                assert(agree_upto(y, x, n));
            }
        } else {
            let k0 = choose|k: int| 0 <= k < n && x[k] != y[k];
            let m = lemma_first_difference(x, y, k0);
            assert(agree_upto(x, y, m));
            assert(agree_upto(y, x, m));
        }
    }
}

proof fn lemma_first_difference<A>(x: Seq<A>, y: Seq<A>, k: int) -> (m: int)
    requires
        0 <= k < x.len(),
        k < y.len(),
        x[k] != y[k],
    ensures
        0 <= m <= k,
        x[m] != y[m],
        forall|j: int| 0 <= j < m ==> x[j] == y[j],
    decreases k,
{
    if exists|j: int| 0 <= j < k && x[j] != y[j] {
        let j = choose|j: int| 0 <= j < k && x[j] != y[j];
        lemma_first_difference(x, y, j)
    } else {
        k
    }
}

/// Text order and row order are strict total orders.
pub proof fn lemma_orders_strict_total()
    ensures
        strict_total(char_lt()),
        strict_total(text_lt()),
        strict_total(|a: Seq<Seq<char>>, b: Seq<Seq<char>>| row_lt(a, b)),
{
    let c = char_lt();
    assert forall|x: char, y: char| x != y implies #[trigger] c(x, y) || #[trigger] c(y, x) by {
        vstd::utf8::char_u32_cast(x, x as u32);
        vstd::utf8::char_u32_cast(y, y as u32);
    }
    lemma_lex_strict_total(char_lt());
    assert(text_lt() =~= |x: Seq<char>, y: Seq<char>| lex_lt(x, y, char_lt()));
    lemma_lex_strict_total(text_lt());
    assert((|a: Seq<Seq<char>>, b: Seq<Seq<char>>| row_lt(a, b)) =~= (|x: Seq<Seq<char>>, y: Seq<Seq<char>>| lex_lt(x, y, text_lt())));
}

/// Whether text `a` comes before text `b`.
pub fn text_less(a: &String, b: &String) -> (r: bool)
    ensures
        r == text_lt()(a@, b@),
{
    let sa = a.as_str();
    let sb = b.as_str();
    let la = sa.unicode_len();
    let lb = sb.unicode_len();
    let mut i: usize = 0;
    proof {
        lemma_orders_strict_total();
    }
    while i < la && i < lb
        invariant
            la == a@.len(),
            lb == b@.len(),
            sa@ == a@,
            sb@ == b@,
            i <= la,
            i <= lb,
            agree_upto(a@, b@, i as int),
            strict_total(char_lt()),
        decreases la - i,
    {
        let ca = sa.get_char(i);
        let cb = sb.get_char(i);
        if ca != cb {
            let r = (ca as u32) < (cb as u32);
            proof {
                if r {
                    assert(agree_upto(a@, b@, i as int) && lex_at(a@, b@, i as int, char_lt()));
                } else {
                    assert forall|k: int| #[trigger] agree_upto(a@, b@, k) implies !lex_at(a@, b@, k, char_lt()) by {
                        if k < i {
                        } else if k > i {
                            assert(a@[i as int] == b@[i as int]);
                        }
                    }
                }
            }
            return r;
        }
        i = i + 1;
    }
    let r = la < lb;
    proof {
        if r {
            assert(agree_upto(a@, b@, i as int) && lex_at(a@, b@, i as int, char_lt()));
        } else {
            assert forall|k: int| #[trigger] agree_upto(a@, b@, k) implies !lex_at(a@, b@, k, char_lt()) by {
                if k < i {
                    assert(a@[k] == b@[k]);
                }
            }
        }
    }
    r
}

/// The row order is irreflexive, transitive and total.
pub proof fn lemma_row_order()
    ensures
        forall|x: Seq<Seq<char>>| !#[trigger] row_lt(x, x),
        forall|x: Seq<Seq<char>>, y: Seq<Seq<char>>, z: Seq<Seq<char>>|
            #[trigger] row_lt(x, y) && #[trigger] row_lt(y, z) ==> row_lt(x, z),
        forall|x: Seq<Seq<char>>, y: Seq<Seq<char>>|
            x != y ==> #[trigger] row_lt(x, y) || #[trigger] row_lt(y, x),
{
    lemma_orders_strict_total();
    let l = |a: Seq<Seq<char>>, b: Seq<Seq<char>>| row_lt(a, b);
    assert forall|x: Seq<Seq<char>>| !#[trigger] row_lt(x, x) by {
        assert(!l(x, x));
    }
    assert forall|x: Seq<Seq<char>>, y: Seq<Seq<char>>, z: Seq<Seq<char>>|
        #[trigger] row_lt(x, y) && #[trigger] row_lt(y, z) implies row_lt(x, z) by {
        assert(l(x, y) && l(y, z));
    }
    assert forall|x: Seq<Seq<char>>, y: Seq<Seq<char>>|
        x != y implies #[trigger] row_lt(x, y) || #[trigger] row_lt(y, x) by {
        assert(l(x, y) || l(y, x));
    }
}

/// Two strictly sorted row sequences that hold the same rows are equal.
pub proof fn lemma_sorted_same_rows_equal(a: Seq<Seq<Seq<char>>>, b: Seq<Seq<Seq<char>>>)
    requires
        strictly_sorted(a),
        strictly_sorted(b),
        a.to_set() == b.to_set(),
    ensures
        a == b,
    decreases a.len(),
{
    lemma_row_order();
    if a.len() == 0 {
        if b.len() > 0 {
            assert(b.to_set().contains(b[0]));
        }
        assert(a =~= b);
    } else {
        assert(a.to_set().contains(a[0]));
        assert(b.to_set().contains(a[0]));
        let q = choose|q: int| 0 <= q < b.len() && b[q] == a[0];
        assert(b.to_set().contains(b[0]));
        assert(a.to_set().contains(b[0]));
        let p = choose|p: int| 0 <= p < a.len() && a[p] == b[0];
        if p > 0 {
            assert(row_lt(a[0], a[p]));
            if q > 0 {
                assert(row_lt(b[0], b[q]));
            }
        }
        assert(a[0] == b[0]);
        let a1 = a.skip(1);
        let b1 = b.skip(1);
        assert forall|x: Seq<Seq<char>>| a1.to_set().contains(x) implies b1.to_set().contains(x) by {
            let k = choose|k: int| 0 <= k < a1.len() && a1[k] == x;
            assert(row_lt(a[0], a[k + 1]));
            assert(a.to_set().contains(x));
            let k2 = choose|k2: int| 0 <= k2 < b.len() && b[k2] == x;
            assert(k2 != 0);
            assert(b1[k2 - 1] == x);
        }
        assert forall|x: Seq<Seq<char>>| b1.to_set().contains(x) implies a1.to_set().contains(x) by {
            let k = choose|k: int| 0 <= k < b1.len() && b1[k] == x;
            assert(row_lt(b[0], b[k + 1]));
            assert(b.to_set().contains(x));
            let k2 = choose|k2: int| 0 <= k2 < a.len() && a[k2] == x;
            assert(k2 != 0);
            assert(a1[k2 - 1] == x);
        }
        assert(a1.to_set() =~= b1.to_set());
        assert forall|i: int, j: int| 0 <= i < j < a1.len() implies row_lt(#[trigger] a1[i], #[trigger] a1[j]) by {
            assert(a1[i] == a[i + 1] && a1[j] == a[j + 1]);
        }
        assert forall|i: int, j: int| 0 <= i < j < b1.len() implies row_lt(#[trigger] b1[i], #[trigger] b1[j]) by {
            assert(b1[i] == b[i + 1] && b1[j] == b[j + 1]);
        }
        lemma_sorted_same_rows_equal(a1, b1);
        assert(a1.len() == b1.len());
        assert(a.len() == b.len());
        assert forall|i: int| 0 <= i < a.len() implies a[i] == b[i] by {
            if i > 0 {
                assert(a[i] == a1[i - 1]);
                assert(b[i] == b1[i - 1]);
            }
        }
        assert(a =~= b);
    }
}

/// Whether two rows hold the same text in every cell.
pub fn row_equal(a: &Vec<String>, b: &Vec<String>) -> (r: bool)
    ensures
        r == (row_view(*a) == row_view(*b)),
{
    if a.len() != b.len() {
        assert(row_view(*a).len() != row_view(*b).len());
        return false;
    }
    let mut i: usize = 0;
    while i < a.len()
        invariant
            a.len() == b.len(),
            i <= a.len(),
            forall|k: int| 0 <= k < i ==> a@[k]@ == b@[k]@,
        decreases a.len() - i,
    {
        if a[i] != b[i] {
            assert(row_view(*a)[i as int] != row_view(*b)[i as int]);
            return false;
        }
        i = i + 1;
    }
    assert(row_view(*a) =~= row_view(*b));
    true
}

/// Whether row `a` comes before row `b`.
pub fn row_less(a: &Vec<String>, b: &Vec<String>) -> (r: bool)
    ensures
        r == row_lt(row_view(*a), row_view(*b)),
{
    let ghost va = row_view(*a);
    let ghost vb = row_view(*b);
    proof {
        lemma_orders_strict_total();
    }
    let mut i: usize = 0;
    while i < a.len() && i < b.len()
        invariant
            va == row_view(*a),
            vb == row_view(*b),
            i <= a.len(),
            i <= b.len(),
            agree_upto(va, vb, i as int),
            strict_total(text_lt()),
        decreases a.len() - i,
    {
        if a[i] != b[i] {
            let r = text_less(&a[i], &b[i]);
            proof {
                if r {
                    assert(agree_upto(va, vb, i as int) && lex_at(va, vb, i as int, text_lt()));
                } else {
                    assert(text_lt()(vb[i as int], va[i as int]));
                    assert forall|k: int| #[trigger] agree_upto(va, vb, k) implies !lex_at(va, vb, k, text_lt()) by {
                        if k > i {
                            assert(va[i as int] == vb[i as int]);
                        }
                    }
                }
            }
            return r;
        }
        i = i + 1;
    }
    let r = a.len() < b.len();
    proof {
        if r {
            assert(agree_upto(va, vb, i as int) && lex_at(va, vb, i as int, text_lt()));
        } else {
            assert forall|k: int| #[trigger] agree_upto(va, vb, k) implies !lex_at(va, vb, k, text_lt()) by {
                if k < i {
                    assert(va[k] == vb[k]);
                }
            }
        }
    }
    r
}

/// A copy of a row.
pub fn copy_row(a: &Vec<String>) -> (r: Vec<String>)
    ensures
        row_view(r) == row_view(*a),
{
    let mut r: Vec<String> = Vec::new();
    let mut i: usize = 0;
    while i < a.len()
        invariant
            i <= a.len(),
            r.len() == i,
            forall|k: int| 0 <= k < i ==> r@[k]@ == a@[k]@,
        decreases a.len() - i,
    {
        r.push(a[i].clone());
        i = i + 1;
    }
    assert(row_view(r) =~= row_view(*a));
    r
}

/// The distinct rows of `rows`, in ascending row order.
pub fn sorted_distinct_rows(rows: &Vec<Vec<String>>) -> (r: Vec<Vec<String>>)
    ensures
        strictly_sorted(rows_view(r@)),
        rows_view(r@).to_set() == rows_view(rows@).to_set(),
{
    proof {
        lemma_row_order();
    }
    let mut out: Vec<Vec<String>> = Vec::new();
    let mut i: usize = 0;
    while i < rows.len()
        invariant
            i <= rows.len(),
            strictly_sorted(rows_view(out@)),
            rows_view(out@).to_set() == rows_view(rows@.take(i as int)).to_set(),
        decreases rows.len() - i,
    {
        proof {
            lemma_row_order();
        }
        let ghost vo = rows_view(out@);
        let ghost x = row_view(rows@[i as int]);
        let mut p: usize = 0;
        while p < out.len()
            invariant
                vo == rows_view(out@),
                x == row_view(rows@[i as int]),
                i < rows.len(),
                p <= out.len(),
                forall|k: int| 0 <= k < p ==> row_lt(#[trigger] vo[k], x),
            ensures
                p <= out.len(),
                forall|k: int| 0 <= k < p ==> row_lt(#[trigger] vo[k], x),
                p < out.len() ==> !row_lt(vo[p as int], x),
            decreases out.len() - p,
        {
            if !row_less(&out[p], &rows[i]) {
                break;
            }
            p = p + 1;
        }
        assert(rows_view(rows@.take(i + 1)) =~= rows_view(rows@.take(i as int)).push(x));
        proof {
            rows_view(rows@.take(i as int)).lemma_push_to_set_commute(x);
        }
        if p < out.len() && row_equal(&out[p], &rows[i]) {
            assert(vo[p as int] == x);
            assert(vo.to_set().contains(x));
            assert(rows_view(rows@.take(i + 1)).to_set() =~= vo.to_set());
        } else {
            let row = copy_row(&rows[i]);
            out.insert(p, row);
            let ghost vn = rows_view(out@);
            assert(vn =~= vo.insert(p as int, x));
            assert forall|a: int, b: int| 0 <= a < b < vn.len() implies row_lt(#[trigger] vn[a], #[trigger] vn[b]) by {
                if p < vo.len() {
                    assert(vo[p as int] != x);
                    assert(!row_lt(vo[p as int], x));
                    assert(row_lt(x, vo[p as int]));
                }
                if b < p {
                } else if b == p {
                } else if a < p {
                    assert(row_lt(vo[a], x));
                    if b - 1 > p {
                        assert(row_lt(vo[p as int], vo[b - 1]));
                    }
                } else if a == p {
                    if b - 1 > p {
                        assert(row_lt(vo[p as int], vo[b - 1]));
                    }
                } else {
                    assert(vn[a] == vo[a - 1] && vn[b] == vo[b - 1]);
                }
            }
            assert forall|y: Seq<Seq<char>>| vn.to_set().contains(y) <==> vo.to_set().insert(x).contains(y) by {
                if vn.to_set().contains(y) {
                    let k = choose|k: int| 0 <= k < vn.len() && vn[k] == y;
                    if k < p {
                        assert(vo[k] == y);
                    } else if k > p {
                        assert(vo[k - 1] == y);
                    }
                }
                if vo.to_set().contains(y) {
                    let k = choose|k: int| 0 <= k < vo.len() && vo[k] == y;
                    if k < p {
                        assert(vn[k] == y);
                    } else {
                        assert(vn[k + 1] == y);
                    }
                }
                if y == x {
                    assert(vn[p as int] == y);
                }
            }
            assert(vn.to_set() =~= vo.to_set().insert(x));
        }
        i = i + 1;
    }
    assert(rows@.take(rows.len() as int) =~= rows@);
    out
}

} // verus!

verus! {

/// Whether `rows` holds a row equal to `row`.
pub fn contains_row(rows: &Vec<Vec<String>>, row: &Vec<String>) -> (r: bool)
    ensures
        r == rows_view(rows@).contains(row_view(*row)),
{
    let mut i: usize = 0;
    while i < rows.len()
        invariant
            i <= rows.len(),
            forall|k: int| 0 <= k < i ==> rows_view(rows@)[k] != row_view(*row),
        decreases rows.len() - i,
    {
        if row_equal(&rows[i], row) {
            assert(rows_view(rows@)[i as int] == row_view(*row));
            return true;
        }
        i = i + 1;
    }
    false
}

/// The rows of `rows` without repeats, each where it first occurs.
pub fn distinct_in_order(rows: &Vec<Vec<String>>) -> (r: Vec<Vec<String>>)
    ensures
        rows_view(r@) == rows_view(rows@).remove_duplicates(seq![]),
{
    let ghost v = rows_view(rows@);
    let mut out: Vec<Vec<String>> = Vec::new();
    let mut i: usize = 0;
    assert(v.take(0).remove_duplicates(seq![]) =~= seq![]);
    while i < rows.len()
        invariant
            v == rows_view(rows@),
            i <= rows.len(),
            rows_view(out@) == v.take(i as int).remove_duplicates(seq![]),
        decreases rows.len() - i,
    {
        let ghost t = v.take(i as int);
        let ghost x = v[i as int];
        proof {
            t.lemma_remove_duplicates_properties(seq![]);
            t.lemma_remove_duplicates_append(x, seq![]);
            assert(t + seq![] =~= t);
            assert(v.take(i + 1) =~= t + seq![x]);
        }
        if !contains_row(&out, &rows[i]) {
            let row = copy_row(&rows[i]);
            out.push(row);
            assert(rows_view(out@) =~= t.remove_duplicates(seq![]) + seq![x]);
        }
        i = i + 1;
    }
    assert(v.take(rows.len() as int) =~= v);
    out
}

/// Rows whose length is `n`.
pub open spec fn has_len(n: nat) -> spec_fn(Seq<Seq<char>>) -> bool {
    |l: Seq<Seq<char>>| l.len() == n
}

/// The rows of `s` with length at most `n`, shorter before longer, in the
/// order of `s` among equal lengths.
pub open spec fn by_len_upto(s: Seq<Seq<Seq<char>>>, n: nat) -> Seq<Seq<Seq<char>>>
    decreases n,
{
    if n == 0 {
        s.filter(has_len(0))
    } else {
        by_len_upto(s, (n - 1) as nat) + s.filter(has_len(n))
    }
}

fn append_with_len(out: &mut Vec<Vec<String>>, rows: &Vec<Vec<String>>, n: usize)
    ensures
        rows_view(final(out)@) == rows_view(old(out)@) + rows_view(rows@).filter(has_len(n as nat)),
{
    let ghost v = rows_view(rows@);
    let ghost start = rows_view(out@);
    let mut i: usize = 0;
    assert(v.take(0).filter(has_len(n as nat)) =~= seq![]) by {
        reveal(Seq::filter);
    }
    assert(start + seq![] =~= start);
    while i < rows.len()
        invariant
            v == rows_view(rows@),
            i <= rows.len(),
            rows_view(out@) == start + v.take(i as int).filter(has_len(n as nat)),
        decreases rows.len() - i,
    {
        proof {
            assert(v.take(i + 1) =~= v.take(i as int).push(v[i as int]));
            v.take(i as int).lemma_filter_push(v[i as int], has_len(n as nat));
            assert(v[i as int].len() == rows@[i as int].len());
        }
        if rows[i].len() == n {
            let ghost prev = rows_view(out@);
            let row = copy_row(&rows[i]);
            out.push(row);
            assert(rows_view(out@) =~= prev.push(v[i as int]));
            assert(has_len(n as nat)(v[i as int]));
            assert(rows_view(out@) =~= start + v.take(i + 1).filter(has_len(n as nat)));
        }
        i = i + 1;
    }
    assert(v.take(rows.len() as int) =~= v);
}

/// The rows of `rows` ordered by length, at most `max` long, stable among
/// equal lengths.
pub fn ordered_by_len(rows: &Vec<Vec<String>>, max: usize) -> (r: Vec<Vec<String>>)
    ensures
        rows_view(r@) == by_len_upto(rows_view(rows@), max as nat),
{
    let mut out: Vec<Vec<String>> = Vec::new();
    append_with_len(&mut out, rows, 0);
    assert(rows_view(out@) =~= by_len_upto(rows_view(rows@), 0));
    let mut n: usize = 0;
    while n < max
        invariant
            n <= max,
            rows_view(out@) == by_len_upto(rows_view(rows@), n as nat),
        decreases max - n,
    {
        n = n + 1;
        append_with_len(&mut out, rows, n);
    }
    out
}

} // verus!
