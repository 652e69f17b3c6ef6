use vstd::prelude::*;
use vstd::string::*;

verus! {

/// The views of a sequence of owned strings.
pub open spec fn views_of(ss: Seq<String>) -> Seq<Seq<char>> {
    ss.map_values(|s: String| s@)
}

/// The pieces of `s` between occurrences of `sep`: every occurrence splits,
/// adjacent occurrences yield an empty piece, and there is always at least
/// one piece (an empty input yields one empty piece).
pub open spec fn split_on(s: Seq<char>, sep: char) -> Seq<Seq<char>>
    decreases s.len(),
{
    if s.len() == 0 {
        seq![Seq::<char>::empty()]
    } else if s[0] == sep {
        seq![Seq::<char>::empty()] + split_on(s.drop_first(), sep)
    } else {
        let rest = split_on(s.drop_first(), sep);
        seq![seq![s[0]] + rest[0]] + rest.drop_first()
    }
}

/// The pieces joined back together with `sep` between them.
pub open spec fn join_with(pieces: Seq<Seq<char>>, sep: char) -> Seq<char>
    decreases pieces.len(),
{
    if pieces.len() == 0 {
        Seq::<char>::empty()
    } else if pieces.len() == 1 {
        pieces[0]
    } else {
        pieces[0] + seq![sep] + join_with(pieces.drop_first(), sep)
    }
}

pub proof fn lemma_split_on_len(s: Seq<char>, sep: char)
    ensures
        split_on(s, sep).len() >= 1,
    decreases s.len(),
{
    if s.len() == 0 {
    } else if s[0] == sep {
    } else {
        lemma_split_on_len(s.drop_first(), sep);
    }
}

/// Splitting is the inverse of joining: the pieces of `s` carry no separator,
/// only characters of `s`, and joined with the separator they rebuild `s`.
pub proof fn lemma_split_on_join(s: Seq<char>, sep: char)
    ensures
        join_with(split_on(s, sep), sep) == s,
        forall|i: int| 0 <= i < split_on(s, sep).len() ==> !(#[trigger] split_on(s, sep)[i]).contains(sep),
        forall|i: int, j: int|
            0 <= i < split_on(s, sep).len() && 0 <= j < split_on(s, sep)[i].len()
                ==> s.contains(#[trigger] split_on(s, sep)[i][j]),
    decreases s.len(),
{
    lemma_split_on_len(s, sep);
    if s.len() == 0 {
        assert(join_with(split_on(s, sep), sep) =~= s);
        assert forall|i: int| 0 <= i < split_on(s, sep).len() implies !(#[trigger] split_on(s, sep)[i]).contains(sep) by {
            assert(split_on(s, sep)[i] =~= Seq::<char>::empty());
        }
    } else if s[0] == sep {
        let rest = s.drop_first();
        lemma_split_on_join(rest, sep);
        lemma_split_on_len(rest, sep);
        let sp = split_on(s, sep);
        let spr = split_on(rest, sep);
        assert(sp.drop_first() =~= spr);
        assert(join_with(sp, sep) =~= seq![sep] + join_with(spr, sep));
        assert(join_with(sp, sep) =~= s);
        assert forall|i: int, j: int|
            0 <= i < sp.len() && 0 <= j < sp[i].len() implies s.contains(#[trigger] sp[i][j]) by {
            if i > 0 {
                assert(sp[i] == spr[i - 1]);
                assert(rest.contains(spr[i - 1][j]));
                let k = choose|k: int| 0 <= k < rest.len() && rest[k] == sp[i][j];
                assert(s[k + 1] == sp[i][j]);
            }
        }
    } else {
        let rest = s.drop_first();
        lemma_split_on_join(rest, sep);
        lemma_split_on_len(rest, sep);
        let sp = split_on(s, sep);
        let spr = split_on(rest, sep);
        assert(sp[0] == seq![s[0]] + spr[0]);
        assert(sp.drop_first() =~= spr.drop_first());
        if spr.len() == 1 {
            assert(sp.len() == 1);
            assert(join_with(sp, sep) == sp[0]);
            assert(join_with(spr, sep) == spr[0]);
            assert(join_with(sp, sep) =~= s);
        } else {
            assert(join_with(sp, sep) =~= sp[0] + seq![sep] + join_with(sp.drop_first(), sep));
            assert(join_with(spr, sep) =~= spr[0] + seq![sep] + join_with(spr.drop_first(), sep));
            assert(join_with(sp, sep) =~= seq![s[0]] + join_with(spr, sep));
            assert(join_with(sp, sep) =~= s);
        }
        assert forall|i: int| 0 <= i < sp.len() implies !(#[trigger] sp[i]).contains(sep) by {
            if i == 0 {
                assert(!spr[0].contains(sep));
                assert forall|j: int| 0 <= j < sp[0].len() implies sp[0][j] != sep by {
                    if j == 0 {
                    } else {
                        assert(sp[0][j] == spr[0][j - 1]);
                        assert(!spr[0].contains(sep));
                    }
                }
            } else {
                assert(sp[i] == spr[i]);
            }
        }
        assert forall|i: int, j: int|
            0 <= i < sp.len() && 0 <= j < sp[i].len() implies s.contains(#[trigger] sp[i][j]) by {
            if i == 0 {
                if j == 0 {
                    assert(sp[0][0] == s[0]);
                    assert(s.contains(s[0]));
                } else {
                    assert(sp[0][j] == spr[0][j - 1]);
                    assert(rest.contains(spr[0][j - 1]));
                    let k = choose|k: int| 0 <= k < rest.len() && rest[k] == sp[i][j];
                    assert(s[k + 1] == sp[i][j]);
                }
            } else {
                assert(sp[i] == spr[i]);
                assert(rest.contains(spr[i][j]));
                let k = choose|k: int| 0 <= k < rest.len() && rest[k] == sp[i][j];
                assert(s[k + 1] == sp[i][j]);
            }
        }
    }
}

/// Splits `s` on every occurrence of `sep`, as `str::split` does for a
/// single-character pattern.
pub fn split_string(s: &str, sep: char) -> (r: Vec<String>)
    ensures
        views_of(r@) == split_on(s@, sep),
        r.len() >= 1,
{
    let n = s.unicode_len();
    let mut pieces: Vec<String> = Vec::new();
    let mut cur = String::new();
    let mut i: usize = 0;
    proof {
        lemma_split_on_len(s@, sep);
        assert(s@.skip(0) =~= s@);
        assert(views_of(pieces@) + seq![cur@ + split_on(s@.skip(0), sep)[0]]
            + split_on(s@.skip(0), sep).drop_first() =~= split_on(s@, sep));
    }
    while i < n
        invariant
            i <= n,
            n == s@.len(),
            split_on(s@, sep).len() >= 1,
            split_on(s@.skip(i as int), sep).len() >= 1,
            views_of(pieces@) + seq![cur@ + split_on(s@.skip(i as int), sep)[0]]
                + split_on(s@.skip(i as int), sep).drop_first() == split_on(s@, sep),
        decreases n - i,
    {
        let c = s.get_char(i);
        let ghost tail = s@.skip(i as int);
        proof {
            assert(tail[0] == s@[i as int]);
            assert(tail.drop_first() =~= s@.skip(i as int + 1));
            lemma_split_on_len(s@.skip(i as int + 1), sep);
        }
        if c == sep {
            let ghost old_pieces = pieces@;
            let ghost old_cur = cur@;
            pieces.push(cur);
            cur = String::new();
            proof {
                let nxt = split_on(s@.skip(i as int + 1), sep);
                assert(split_on(tail, sep) =~= seq![Seq::<char>::empty()] + nxt);
                assert(split_on(tail, sep)[0] =~= Seq::<char>::empty());
                assert(old_cur + split_on(tail, sep)[0] =~= old_cur);
                assert(views_of(pieces@) =~= views_of(old_pieces) + seq![old_cur]);
                assert(views_of(pieces@) + seq![cur@ + nxt[0]] + nxt.drop_first()
                    =~= views_of(old_pieces) + seq![old_cur + split_on(tail, sep)[0]]
                        + split_on(tail, sep).drop_first());
            }
        } else {
            let ghost old_cur = cur@;
            let piece = s.substring_char(i, i + 1);
            cur.append(piece);
            proof {
                let nxt = split_on(s@.skip(i as int + 1), sep);
                assert(split_on(tail, sep) =~= seq![seq![tail[0]] + nxt[0]] + nxt.drop_first());
                assert(piece@ =~= seq![s@[i as int]]);
                assert(cur@ + nxt[0] =~= old_cur + split_on(tail, sep)[0]);
                assert(views_of(pieces@) + seq![cur@ + nxt[0]] + nxt.drop_first()
                    =~= views_of(pieces@) + seq![old_cur + split_on(tail, sep)[0]]
                        + split_on(tail, sep).drop_first());
            }
        }
        i = i + 1;
    }
    let ghost old_pieces = pieces@;
    let ghost last_cur = cur@;
    pieces.push(cur);
    proof {
        let tail = s@.skip(n as int);
        assert(tail =~= Seq::<char>::empty());
        assert(split_on(tail, sep) =~= seq![Seq::<char>::empty()]);
        assert(last_cur + split_on(tail, sep)[0] =~= last_cur);
        assert(split_on(tail, sep).drop_first() =~= Seq::<Seq<char>>::empty());
        assert(views_of(pieces@) =~= views_of(old_pieces) + seq![last_cur]);
        assert(views_of(old_pieces) + seq![last_cur + split_on(tail, sep)[0]]
            + split_on(tail, sep).drop_first() =~= views_of(old_pieces) + seq![last_cur]);
        assert(views_of(pieces@) =~= split_on(s@, sep));
    }
    pieces
}

/// The file stem the identifier yields: the seventh colon-delimited field's
/// first hyphen-delimited token, stripped of any slash-delimited path prefix;
/// `"secret"` where the identifier has fewer than seven fields.
pub open spec fn stem_of(arn: Seq<char>) -> Seq<char> {
    let fields = split_on(arn, ':');
    if fields.len() < 7 {
        "secret"@
    } else {
        split_on(split_on(fields[6], '-')[0], '/').last()
    }
}

/// The stem law: an identifier with at least seven colon-delimited fields
/// yields the name field's first hyphen-delimited token stripped to its last
/// slash-delimited component — a piece that contains neither a hyphen nor a
/// slash; a shorter identifier yields the literal `"secret"`. Together with
/// `lemma_split_on_join`, which pins what the split pieces are, this
/// characterizes the stem as the text of the name field after its last `/`
/// and before the first `-` that follows no later than the next `/`.
pub proof fn lemma_stem_of_shape(arn: Seq<char>)
    ensures
        split_on(arn, ':').len() < 7 ==> stem_of(arn) == "secret"@,
        split_on(arn, ':').len() >= 7 ==> stem_of(arn) == split_on(
            split_on(split_on(arn, ':')[6], '-')[0],
            '/',
        ).last(),
        split_on(arn, ':').len() >= 7 ==> !stem_of(arn).contains('-') && !stem_of(
            arn,
        ).contains('/'),
{
    if split_on(arn, ':').len() >= 7 {
        let name_field = split_on(arn, ':')[6];
        let token = split_on(name_field, '-')[0];
        let pieces = split_on(token, '/');
        lemma_split_on_len(name_field, '-');
        lemma_split_on_join(name_field, '-');
        lemma_split_on_len(token, '/');
        lemma_split_on_join(token, '/');
        let stem = pieces.last();
        assert(stem == pieces[pieces.len() - 1]);
        assert(!token.contains('-'));
        assert(!stem.contains('/'));
        assert forall|j: int| 0 <= j < stem.len() implies stem[j] != '-' by {
            assert(pieces[pieces.len() - 1][j] == stem[j]);
            assert(token.contains(stem[j]));
        }
        if stem.contains('-') {
            let j = choose|j: int| 0 <= j < stem.len() && stem[j] == '-';
            assert(stem[j] != '-');
        }
    }
}

/// Derives the output file stem from a secret identifier of the form
/// `arn:aws:secretsmanager:region:account:secret:name-suffix`: the name
/// before its random suffix, with any slash-delimited path prefix
/// discarded. Never fails; an identifier with fewer than seven fields
/// yields `"secret"`.
pub fn extract_secret_name_from_arn(arn: &str) -> (r: String)
    ensures
        r@ == stem_of(arn@),
{
    let fields = split_string(arn, ':');
    if fields.len() < 7 {
        return "secret".to_owned();
    }
    let name_field = &fields[6];
    proof {
        assert(views_of(fields@)[6] == name_field@);
    }
    let hyphen_parts = split_string(name_field.as_str(), '-');
    let first_token = &hyphen_parts[0];
    proof {
        assert(views_of(hyphen_parts@)[0] == first_token@);
    }
    let path_parts = split_string(first_token.as_str(), '/');
    let last = &path_parts[path_parts.len() - 1];
    proof {
        assert(views_of(path_parts@)[path_parts@.len() - 1] == last@);
        assert(split_on(first_token@, '/').last() == last@);
    }
    last.clone()
}

} // verus!
