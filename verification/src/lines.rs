use vstd::prelude::*;
use vstd::string::*;
use crate::arn::views_of;

verus! {

/// Lexicographic order on character sequences by code point. For UTF-8
/// encoded text this is the same order as byte-wise string comparison,
/// since UTF-8 encoding preserves code-point order.
pub open spec fn lex_leq(a: Seq<char>, b: Seq<char>) -> bool
    decreases a.len(),
{
    if a.len() == 0 {
        true
    } else if b.len() == 0 {
        false
    } else if (a[0] as u32) < (b[0] as u32) {
        true
    } else if (b[0] as u32) < (a[0] as u32) {
        false
    } else {
        lex_leq(a.drop_first(), b.drop_first())
    }
}

/// The lexicographic order is total: of any two lines, one is at most the
/// other.
pub proof fn lemma_lex_leq_total(a: Seq<char>, b: Seq<char>)
    ensures
        lex_leq(a, b) || lex_leq(b, a),
    decreases a.len(),
{
    if a.len() == 0 || b.len() == 0 {
    } else if (a[0] as u32) < (b[0] as u32) || (b[0] as u32) < (a[0] as u32) {
    } else {
        lemma_lex_leq_total(a.drop_first(), b.drop_first());
    }
}

/// Compares two strings in the lexicographic order above.
pub fn lex_leq_exec(a: &str, b: &str) -> (r: bool)
    ensures
        r == lex_leq(a@, b@),
{
    let na = a.unicode_len();
    let nb = b.unicode_len();
    let mut i: usize = 0;
    proof {
        assert(a@.skip(0) =~= a@);
        assert(b@.skip(0) =~= b@);
    }
    while i < na
        invariant
            i <= na,
            i <= nb,
            na == a@.len(),
            nb == b@.len(),
            lex_leq(a@, b@) == lex_leq(a@.skip(i as int), b@.skip(i as int)),
        decreases na - i,
    {
        let ghost ta = a@.skip(i as int);
        let ghost tb = b@.skip(i as int);
        if i >= nb {
            proof {
                assert(tb =~= Seq::<char>::empty());
                assert(ta.len() > 0);
            }
            return false;
        }
        let ca = a.get_char(i);
        let cb = b.get_char(i);
        proof {
            assert(ta[0] == a@[i as int]);
            assert(tb[0] == b@[i as int]);
        }
        if (ca as u32) < (cb as u32) {
            return true;
        }
        if (cb as u32) < (ca as u32) {
            return false;
        }
        proof {
            assert(ta.drop_first() =~= a@.skip(i as int + 1));
            assert(tb.drop_first() =~= b@.skip(i as int + 1));
        }
        i = i + 1;
    }
    proof {
        assert(a@.skip(na as int) =~= Seq::<char>::empty());
    }
    true
}

/// `x` inserted into `s` before the first element it is strictly below,
/// keeping everything else in place.
pub open spec fn insert_line(s: Seq<Seq<char>>, x: Seq<char>) -> Seq<Seq<char>>
    decreases s.len(),
{
    if s.len() == 0 {
        seq![x]
    } else if lex_leq(s[0], x) {
        seq![s[0]] + insert_line(s.drop_first(), x)
    } else {
        seq![x] + s
    }
}

/// The position `insert_line` puts `x` at.
pub open spec fn insert_pos(s: Seq<Seq<char>>, x: Seq<char>) -> int
    decreases s.len(),
{
    if s.len() == 0 {
        0
    } else if lex_leq(s[0], x) {
        1 + insert_pos(s.drop_first(), x)
    } else {
        0
    }
}

/// The sequence of lines in ascending lexicographic order: insertion sort,
/// one element at a time from the left.
pub open spec fn sort_lines(s: Seq<Seq<char>>) -> Seq<Seq<char>>
    decreases s.len(),
{
    if s.len() == 0 {
        Seq::<Seq<char>>::empty()
    } else {
        insert_line(sort_lines(s.drop_last()), s.last())
    }
}

/// Each line is at most its successor.
pub open spec fn sorted_lines(s: Seq<Seq<char>>) -> bool {
    forall|i: int| 0 <= i && i + 1 < s.len() ==> #[trigger] lex_leq(s[i], s[i + 1])
}

pub proof fn lemma_insert_line_shape(s: Seq<Seq<char>>, x: Seq<char>)
    ensures
        0 <= insert_pos(s, x) <= s.len(),
        insert_line(s, x) == s.insert(insert_pos(s, x), x),
        forall|j: int| 0 <= j < insert_pos(s, x) ==> lex_leq(#[trigger] s[j], x),
        insert_pos(s, x) < s.len() ==> !lex_leq(s[insert_pos(s, x)], x),
    decreases s.len(),
{
    if s.len() == 0 {
        assert(insert_line(s, x) =~= s.insert(0, x));
    } else if lex_leq(s[0], x) {
        let d = s.drop_first();
        lemma_insert_line_shape(d, x);
        let p = insert_pos(d, x);
        assert(insert_line(s, x) =~= s.insert(p + 1, x));
        assert forall|j: int| 0 <= j < insert_pos(s, x) implies lex_leq(#[trigger] s[j], x) by {
            if j > 0 {
                assert(s[j] == d[j - 1]);
            }
        }
        if p + 1 < s.len() {
            assert(s[p + 1] == d[p]);
        }
    } else {
        assert(insert_line(s, x) =~= s.insert(0, x));
    }
}

pub proof fn lemma_insert_line_sorted(s: Seq<Seq<char>>, x: Seq<char>)
    requires
        sorted_lines(s),
    ensures
        sorted_lines(insert_line(s, x)),
    decreases s.len(),
{
    lemma_insert_line_shape(s, x);
    let p = insert_pos(s, x);
    let r = insert_line(s, x);
    s.insert_ensures(p, x);
    if p < s.len() {
        lemma_lex_leq_total(s[p], x);
    }
    assert forall|i: int| 0 <= i && i + 1 < r.len() implies #[trigger] lex_leq(r[i], r[i + 1]) by {
        if i + 1 < p {
            assert(s.insert(p, x)[i] == s[i]);
            assert(s.insert(p, x)[i + 1] == s[i + 1]);
        } else if i + 1 == p {
            assert(s.insert(p, x)[i] == s[i]);
            assert(s.insert(p, x)[p] == x);
        } else if i == p {
            assert(s.insert(p, x)[p] == x);
            assert(s.insert(p, x)[i + 1] == s[i]);
            assert(lex_leq(x, s[p]));
        } else {
            assert(s.insert(p, x)[(i - 1) + 1] == s[i - 1]);
            assert(s.insert(p, x)[i + 1] == s[i]);
        }
    }
}

/// The sorted lines are exactly the given lines: ascending, and the same
/// multiset, so nothing is added, dropped or duplicated. Sorting is a pure
/// function of its input, so rendering the same input twice gives the same
/// text.
pub proof fn lemma_sort_lines_sorted(s: Seq<Seq<char>>)
    ensures
        sorted_lines(sort_lines(s)),
        sort_lines(s).to_multiset() == s.to_multiset(),
        sort_lines(s).len() == s.len(),
    decreases s.len(),
{
    broadcast use vstd::seq_lib::group_to_multiset_ensures;

    if s.len() == 0 {
        assert(s =~= Seq::<Seq<char>>::empty());
    } else {
        let d = s.drop_last();
        let x = s.last();
        lemma_sort_lines_sorted(d);
        lemma_insert_line_sorted(sort_lines(d), x);
        lemma_insert_line_shape(sort_lines(d), x);
        let p = insert_pos(sort_lines(d), x);
        assert(sort_lines(s) == sort_lines(d).insert(p, x));
        assert(sort_lines(s).to_multiset() == sort_lines(d).to_multiset().insert(x));
        assert(s =~= d.push(x));
        assert(s.to_multiset() == d.to_multiset().insert(x));
    }
}

fn insert_position(out: &Vec<String>, x: &String) -> (k: usize)
    ensures
        k <= out.len(),
        k == insert_pos(views_of(out@), x@),
{
    let ghost vs = views_of(out@);
    let mut k: usize = 0;
    proof {
        assert(vs.skip(0) =~= vs);
    }
    while k < out.len()
        invariant
            k <= out.len(),
            vs == views_of(out@),
            vs.len() == out.len(),
            insert_pos(vs, x@) == k + insert_pos(vs.skip(k as int), x@),
        decreases out.len() - k,
    {
        let ghost tail = vs.skip(k as int);
        proof {
            assert(tail[0] == vs[k as int]);
            assert(vs[k as int] == out@[k as int]@);
        }
        if !lex_leq_exec(out[k].as_str(), x.as_str()) {
            proof {
                assert(insert_pos(tail, x@) == 0);
            }
            return k;
        }
        proof {
            assert(tail.drop_first() =~= vs.skip(k as int + 1));
        }
        k = k + 1;
    }
    proof {
        assert(vs.skip(k as int) =~= Seq::<Seq<char>>::empty());
    }
    k
}

/// Sorts the rendered lines ascending by full line text.
pub fn sort_env_lines(lines: Vec<String>) -> (r: Vec<String>)
    ensures
        views_of(r@) == sort_lines(views_of(lines@)),
{
    let mut out: Vec<String> = Vec::new();
    let mut idx: usize = 0;
    proof {
        assert(views_of(lines@).take(0) =~= Seq::<Seq<char>>::empty());
        assert(views_of(out@) =~= Seq::<Seq<char>>::empty());
    }
    while idx < lines.len()
        invariant
            idx <= lines.len(),
            views_of(out@) == sort_lines(views_of(lines@).take(idx as int)),
        decreases lines.len() - idx,
    {
        let x = lines[idx].clone();
        let ghost old_out = views_of(out@);
        let k = insert_position(&out, &x);
        out.insert(k, x);
        proof {
            lemma_insert_line_shape(old_out, x@);
            assert(views_of(out@) =~= old_out.insert(k as int, x@));
            let pref = views_of(lines@).take(idx as int + 1);
            assert(pref.drop_last() =~= views_of(lines@).take(idx as int));
            assert(pref.last() == x@);
            assert(views_of(out@) == sort_lines(pref));
        }
        idx = idx + 1;
    }
    proof {
        assert(views_of(lines@).take(lines@.len() as int) =~= views_of(lines@));
    }
    out
}

} // verus!
