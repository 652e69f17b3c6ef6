use vstd::prelude::*;
use vstd::string::*;
use crate::arn::{split_on, views_of};
use crate::errors::EnvError;
use crate::lines::{
    insert_pos, lemma_insert_line_shape, lemma_sort_lines_sorted, sort_env_lines, sort_lines,
    sorted_lines,
};
use crate::payload::{
    entry_models, payload_model, upper_of, JsonValModel, JsonValue, ParsedPayload, PayloadModel,
};

verus! {

/// The character substitution applied to an uppercased key: hyphens and
/// spaces become underscores, everything else stays.
pub open spec fn replace_env_char(c: char) -> char {
    if c == '-' || c == ' ' {
        '_'
    } else {
        c
    }
}

/// The environment variable name for a JSON key: the key uppercased, then
/// every hyphen and space replaced by an underscore.
pub open spec fn env_key_of(k: Seq<char>) -> Seq<char> {
    upper_of(k).map_values(|c: char| replace_env_char(c))
}

/// Whether a value can be rendered: every value can, except a compound one
/// whose re-serialization failed.
pub open spec fn renderable(v: JsonValModel) -> bool {
    match v {
        JsonValModel::Compound(None) => false,
        _ => true,
    }
}

/// The rendered text of one value, by its JSON type: a string is its
/// literal contents, a number its decimal text, booleans `true`/`false`,
/// null the empty string, a compound value its re-serialization.
pub open spec fn value_text_of(v: JsonValModel) -> Seq<char>
    recommends
        renderable(v),
{
    match v {
        JsonValModel::Null => Seq::<char>::empty(),
        JsonValModel::Bool(b) => if b {
            "true"@
        } else {
            "false"@
        },
        JsonValModel::Number(t) => t,
        JsonValModel::Text(t) => t,
        JsonValModel::Compound(o) => match o {
            Some(t) => t,
            None => Seq::<char>::empty(),
        },
    }
}

/// The full `KEY=VALUE` line of one object entry.
pub open spec fn line_of(k: Seq<char>, v: JsonValModel) -> Seq<char> {
    env_key_of(k) + "="@ + value_text_of(v)
}

/// The lines of all entries, in entry order.
pub open spec fn rendered_lines(entries: Seq<(Seq<char>, JsonValModel)>) -> Seq<Seq<char>> {
    entries.map_values(|e: (Seq<char>, JsonValModel)| line_of(e.0, e.1))
}

/// Whether every entry's value can be rendered.
pub open spec fn all_renderable(entries: Seq<(Seq<char>, JsonValModel)>) -> bool {
    forall|i: int| 0 <= i < entries.len() ==> renderable((#[trigger] entries[i]).1)
}

/// Every line followed by a newline.
pub open spec fn lines_text(lines: Seq<Seq<char>>) -> Seq<char>
    decreases lines.len(),
{
    if lines.len() == 0 {
        Seq::<char>::empty()
    } else {
        lines[0] + "\n"@ + lines_text(lines.drop_first())
    }
}

/// The file text for a sequence of lines: each line followed by a newline;
/// no lines at all still yield a single newline.
pub open spec fn env_text(lines: Seq<Seq<char>>) -> Seq<char> {
    if lines.len() == 0 {
        "\n"@
    } else {
        lines_text(lines)
    }
}

/// The file text of a JSON object: its entries' lines, sorted ascending by
/// full line text, each followed by a newline.
pub open spec fn object_env_text(entries: Seq<(Seq<char>, JsonValModel)>) -> Seq<char> {
    env_text(sort_lines(rendered_lines(entries)))
}

proof fn lemma_lines_text_push(s: Seq<Seq<char>>, x: Seq<char>)
    ensures
        lines_text(s.push(x)) == lines_text(s) + x + "\n"@,
    decreases s.len(),
{
    if s.len() == 0 {
        assert(s.push(x).drop_first() =~= Seq::<Seq<char>>::empty());
        assert(s.push(x)[0] == x);
        assert(lines_text(s.push(x)) == x + "\n"@ + lines_text(s.push(x).drop_first()));
        assert(lines_text(s.push(x).drop_first()) == Seq::<char>::empty());
        assert(lines_text(s.push(x)) =~= lines_text(s) + x + "\n"@);
    } else {
        lemma_lines_text_push(s.drop_first(), x);
        assert(s.push(x).drop_first() =~= s.drop_first().push(x));
        assert(lines_text(s.push(x)) =~= lines_text(s) + x + "\n"@);
    }
}

/// Turns a JSON key into its environment variable name.
pub fn env_key(k: &str) -> (r: String)
    ensures
        r@ == env_key_of(k@),
{
    let up = crate::payload::to_upper(k);
    let n = up.as_str().unicode_len();
    let mut out = String::new();
    let mut i: usize = 0;
    proof {
        assert(out@ =~= env_key_of(k@).take(0));
    }
    while i < n
        invariant
            i <= n,
            n == upper_of(k@).len(),
            up@ == upper_of(k@),
            out@ == env_key_of(k@).take(i as int),
        decreases n - i,
    {
        let c = up.as_str().get_char(i);
        proof {
            assert(env_key_of(k@)[i as int] == replace_env_char(upper_of(k@)[i as int]));
        }
        if c == '-' || c == ' ' {
            out.append("_");
            proof {
                reveal_strlit("_");
                assert("_"@ =~= seq!['_']);
                assert(out@ =~= env_key_of(k@).take(i as int + 1));
            }
        } else {
            let piece = up.as_str().substring_char(i, i + 1);
            out.append(piece);
            proof {
                assert(piece@ =~= seq![upper_of(k@)[i as int]]);
                assert(out@ =~= env_key_of(k@).take(i as int + 1));
            }
        }
        i = i + 1;
    }
    proof {
        assert(env_key_of(k@).take(n as int) =~= env_key_of(k@));
    }
    out
}

/// Renders one value by its JSON type.
pub fn render_value(v: &JsonValue) -> (r: Result<String, EnvError>)
    ensures
        match r {
            Ok(t) => renderable(v@) && t@ == value_text_of(v@),
            Err(e) => !renderable(v@) && e == EnvError::Serialization,
        },
{
    match v {
        JsonValue::Null => Ok(String::new()),
        JsonValue::Bool(b) => Ok(if *b {
            "true".to_owned()
        } else {
            "false".to_owned()
        }),
        JsonValue::Number(t) => Ok(t.clone()),
        JsonValue::Text(t) => Ok(t.clone()),
        JsonValue::Compound(o) => match o {
            Some(t) => Ok(t.clone()),
            None => Err(EnvError::Serialization),
        },
    }
}

/// Renders one object entry as its full `KEY=VALUE` line.
pub fn render_entry(key: &String, v: &JsonValue) -> (r: Result<String, EnvError>)
    ensures
        match r {
            Ok(t) => renderable(v@) && t@ == line_of(key@, v@),
            Err(e) => !renderable(v@) && e == EnvError::Serialization,
        },
{
    let value_text = match render_value(v) {
        Ok(t) => t,
        Err(e) => {
            return Err(e);
        },
    };
    let key_part = env_key(key.as_str());
    Ok(key_part.concat("=").concat(value_text.as_str()))
}

fn join_env_lines(lines: &Vec<String>) -> (r: String)
    ensures
        r@ == env_text(views_of(lines@)),
{
    if lines.len() == 0 {
        return "\n".to_owned();
    }
    let mut out = String::new();
    let mut i: usize = 0;
    proof {
        assert(views_of(lines@).take(0) =~= Seq::<Seq<char>>::empty());
    }
    while i < lines.len()
        invariant
            i <= lines.len(),
            lines.len() > 0,
            out@ == lines_text(views_of(lines@).take(i as int)),
        decreases lines.len() - i,
    {
        let ghost prefix = views_of(lines@).take(i as int);
        out.append(lines[i].as_str());
        out.append("\n");
        proof {
            lemma_lines_text_push(prefix, lines@[i as int]@);
            assert(views_of(lines@).take(i as int + 1) =~= prefix.push(lines@[i as int]@));
        }
        i = i + 1;
    }
    proof {
        assert(views_of(lines@).take(lines@.len() as int) =~= views_of(lines@));
    }
    out
}

/// Turns the entries of a JSON object into environment-file text: one
/// `KEY=VALUE` line per entry, key uppercased with hyphens and spaces
/// replaced by underscores, value rendered by its JSON type, lines sorted
/// ascending by full line text, each followed by a newline. Fails exactly
/// when some compound value could not be re-serialized.
pub fn json_to_env_format(entries: &Vec<(String, JsonValue)>) -> (r: Result<String, EnvError>)
    ensures
        match r {
            Ok(t) => all_renderable(entry_models(entries@))
                && t@ == object_env_text(entry_models(entries@)),
            Err(e) => !all_renderable(entry_models(entries@)) && e == EnvError::Serialization,
        },
{
    let ghost em = entry_models(entries@);
    let mut lines: Vec<String> = Vec::new();
    let mut i: usize = 0;
    proof {
        assert(views_of(lines@) =~= rendered_lines(em.take(0)));
    }
    while i < entries.len()
        invariant
            i <= entries.len(),
            em == entry_models(entries@),
            em.len() == entries.len(),
            all_renderable(em.take(i as int)),
            views_of(lines@) == rendered_lines(em.take(i as int)),
        decreases entries.len() - i,
    {
        let e = &entries[i];
        proof {
            assert(em[i as int] == (e.0@, e.1@));
        }
        match render_entry(&e.0, &e.1) {
            Ok(line) => {
                lines.push(line);
                proof {
                    assert(em.take(i as int + 1) =~= em.take(i as int).push(em[i as int]));
                    assert(rendered_lines(em.take(i as int + 1))
                        =~= rendered_lines(em.take(i as int)).push(line_of(e.0@, e.1@)));
                    assert(views_of(lines@) =~= rendered_lines(em.take(i as int + 1)));
                    assert forall|j: int| 0 <= j < i as int + 1
                        implies renderable((#[trigger] em.take(i as int + 1)[j]).1) by {
                        assert(em.take(i as int + 1)[j] == em[j]);
                        if j < i as int {
                            assert(renderable(em.take(i as int)[j].1));
                        }
                    }
                }
            },
            Err(err) => {
                proof {
                    assert(!renderable(em[i as int].1));
                }
                return Err(err);
            },
        }
        i = i + 1;
    }
    proof {
        assert(em.take(entries.len() as int) =~= em);
    }
    let sorted = sort_env_lines(lines);
    let text = join_env_lines(&sorted);
    Ok(text)
}

/// The full transformation of one fetched payload into environment-file
/// text. A JSON object becomes sorted `KEY=VALUE` lines; a payload that is
/// JSON but not an object is refused, never guessed at; a payload that is
/// not JSON at all becomes the single line `SECRET_VALUE=<payload>`.
pub fn env_file_content(payload: &str) -> (r: Result<String, EnvError>)
    ensures
        match payload_model(payload@) {
            PayloadModel::NotJson => r matches Ok(t) && t@ == "SECRET_VALUE="@ + payload@
                + "\n"@,
            PayloadModel::NonObject => r matches Err(e) && e == EnvError::InvalidSecretFormat,
            PayloadModel::Object(entries) => match r {
                Ok(t) => all_renderable(entries) && t@ == object_env_text(entries),
                Err(e) => !all_renderable(entries) && e == EnvError::Serialization,
            },
        },
{
    match crate::payload::classify_payload(payload) {
        ParsedPayload::NotJson => Ok("SECRET_VALUE=".to_owned().concat(payload).concat("\n")),
        ParsedPayload::NonObject => Err(EnvError::InvalidSecretFormat),
        ParsedPayload::Object(entries) => json_to_env_format(&entries),
    }
}

/// The ordering law: an object's rendered text is built from lines sorted
/// ascending by full line text, and those lines are exactly the entries'
/// lines — the same multiset, nothing added, dropped or duplicated. The
/// text is a function of the entries alone, so transforming the same
/// entries twice yields byte-identical output.
pub proof fn lemma_object_lines_sorted(entries: Seq<(Seq<char>, JsonValModel)>)
    ensures
        sorted_lines(sort_lines(rendered_lines(entries))),
        sort_lines(rendered_lines(entries)).to_multiset() == rendered_lines(entries).to_multiset(),
        object_env_text(entries) == env_text(sort_lines(rendered_lines(entries))),
{
    lemma_sort_lines_sorted(rendered_lines(entries));
}

/// The key and the value one environment line re-parses to: the text before
/// its first `=`, and everything after that `=`.
pub open spec fn line_pair(line: Seq<char>) -> (Seq<char>, Seq<char>) {
    (split_on(line, '=')[0], line.skip(split_on(line, '=')[0].len() as int + 1))
}

/// The re-parsed pairs of a sequence of lines.
pub open spec fn pairs_of(ls: Seq<Seq<char>>) -> Seq<(Seq<char>, Seq<char>)> {
    ls.map_values(|l: Seq<char>| line_pair(l))
}

/// A line sequence with its empty lines discarded.
pub open spec fn drop_empty_lines(ls: Seq<Seq<char>>) -> Seq<Seq<char>> {
    ls.filter(|p: Seq<char>| p.len() > 0)
}

/// The `KEY=VALUE` pairs an environment file's text re-parses to: the text
/// is cut at every newline, empty lines are discarded (the text ends with a
/// newline, so there is always a trailing empty piece), and each line is cut
/// at its first `=`.
pub open spec fn parsed_pairs(text: Seq<char>) -> Seq<(Seq<char>, Seq<char>)> {
    pairs_of(drop_empty_lines(split_on(text, '\n')))
}

/// The pairs the entries are expected to re-parse to: each key transformed,
/// each value stringified by its JSON type.
pub open spec fn entry_pairs(entries: Seq<(Seq<char>, JsonValModel)>) -> Seq<
    (Seq<char>, Seq<char>),
> {
    entries.map_values(|e: (Seq<char>, JsonValModel)| (env_key_of(e.0), value_text_of(e.1)))
}

proof fn lemma_line_reparse(key: Seq<char>, val: Seq<char>)
    requires
        !key.contains('='),
    ensures
        split_on(key + "="@ + val, '=')[0] == key,
        line_pair(key + "="@ + val) == (key, val),
    decreases key.len(),
{
    reveal_strlit("=");
    let line = key + "="@ + val;
    if key.len() == 0 {
        assert(line[0] == '=');
        assert(line.drop_first() =~= val);
        assert(split_on(line, '=')[0] =~= key);
    } else {
        assert(line[0] == key[0]);
        assert(key[0] != '=') by {
            if key[0] == '=' {
                assert(key.contains('='));
            }
        }
        let dk = key.drop_first();
        assert(!dk.contains('=')) by {
            if dk.contains('=') {
                let j = choose|j: int| 0 <= j < dk.len() && dk[j] == '=';
                assert(key[j + 1] == '=');
                assert(key.contains('='));
            }
        }
        assert(line.drop_first() =~= dk + "="@ + val);
        lemma_line_reparse(dk, val);
        let rest = split_on(line.drop_first(), '=');
        crate::arn::lemma_split_on_len(line.drop_first(), '=');
        assert(split_on(line, '=')[0] == seq![line[0]] + rest[0]);
        assert(split_on(line, '=')[0] =~= key);
    }
    assert(line.skip(key.len() as int + 1) =~= val);
}

proof fn lemma_line_clean(k: Seq<char>, v: Seq<char>)
    requires
        !k.contains('='),
        !k.contains('\n'),
        !v.contains('\n'),
    ensures
        line_pair(k + "="@ + v) == (k, v),
        !(k + "="@ + v).contains('\n'),
        (k + "="@ + v).len() > 0,
{
    reveal_strlit("=");
    reveal_strlit("\n");
    lemma_line_reparse(k, v);
    let line = k + "="@ + v;
    assert forall|j: int| 0 <= j < line.len() implies line[j] != '\n' by {
        if j < k.len() {
            assert(line[j] == k[j]);
            if k[j] == '\n' {
                assert(k.contains('\n'));
            }
        } else if j == k.len() {
            assert(line[j] == '=');
        } else {
            assert(line[j] == v[j - k.len() - 1]);
            if v[j - k.len() - 1] == '\n' {
                assert(v.contains('\n'));
            }
        }
    }
    if line.contains('\n') {
        let j = choose|j: int| 0 <= j < line.len() && line[j] == '\n';
        assert(line[j] != '\n');
    }
}

proof fn lemma_split_on_prefixed(a: Seq<char>, sep: char, b: Seq<char>)
    requires
        !a.contains(sep),
    ensures
        split_on(a + seq![sep] + b, sep) == seq![a] + split_on(b, sep),
    decreases a.len(),
{
    let s = a + seq![sep] + b;
    crate::arn::lemma_split_on_len(b, sep);
    if a.len() == 0 {
        assert(s[0] == sep);
        assert(s.drop_first() =~= b);
        assert(a =~= Seq::<char>::empty());
        assert(split_on(s, sep) =~~= seq![a] + split_on(b, sep));
    } else {
        assert(s[0] == a[0]);
        assert(a[0] != sep) by {
            if a[0] == sep {
                assert(a.contains(sep));
            }
        }
        let da = a.drop_first();
        assert(!da.contains(sep)) by {
            if da.contains(sep) {
                let j = choose|j: int| 0 <= j < da.len() && da[j] == sep;
                assert(a[j + 1] == sep);
                assert(a.contains(sep));
            }
        }
        assert(s.drop_first() =~= da + seq![sep] + b);
        lemma_split_on_prefixed(da, sep, b);
        let rest = split_on(s.drop_first(), sep);
        assert(rest == seq![da] + split_on(b, sep));
        assert(rest[0] == da);
        assert(rest.drop_first() =~= split_on(b, sep));
        assert(seq![s[0]] + rest[0] =~= a);
        assert(split_on(s, sep) =~= seq![a] + split_on(b, sep));
    }
}

proof fn lemma_lines_text_reparse(ls: Seq<Seq<char>>)
    requires
        forall|i: int| 0 <= i < ls.len() ==> !(#[trigger] ls[i]).contains('\n'),
    ensures
        split_on(lines_text(ls), '\n') == ls.push(Seq::<char>::empty()),
    decreases ls.len(),
{
    reveal_strlit("\n");
    if ls.len() == 0 {
        assert(lines_text(ls) =~= Seq::<char>::empty());
        assert(split_on(lines_text(ls), '\n') =~= ls.push(Seq::<char>::empty()));
    } else {
        let d = ls.drop_first();
        assert(forall|i: int| 0 <= i < d.len() ==> !(#[trigger] d[i]).contains('\n')) by {
            assert(forall|i: int| 0 <= i < d.len() ==> d[i] == ls[i + 1]);
        }
        lemma_lines_text_reparse(d);
        assert(lines_text(ls) =~= ls[0] + seq!['\n'] + lines_text(d));
        lemma_split_on_prefixed(ls[0], '\n', lines_text(d));
        assert(split_on(lines_text(ls), '\n') == seq![ls[0]] + split_on(lines_text(d), '\n'));
        assert(seq![ls[0]] + d.push(Seq::<char>::empty()) =~= ls.push(Seq::<char>::empty()));
    }
}

proof fn lemma_drop_empty_lines_id(ls: Seq<Seq<char>>)
    requires
        forall|i: int| 0 <= i < ls.len() ==> (#[trigger] ls[i]).len() > 0,
    ensures
        drop_empty_lines(ls) == ls,
        drop_empty_lines(ls.push(Seq::<char>::empty())) == ls,
    decreases ls.len(),
{
    reveal_with_fuel(Seq::<_>::filter, 2);
    assert(ls.push(Seq::<char>::empty()).drop_last() =~= ls);
    if ls.len() == 0 {
        assert(drop_empty_lines(ls) =~= ls);
    } else {
        let d = ls.drop_last();
        assert(forall|i: int| 0 <= i < d.len() ==> (#[trigger] d[i]).len() > 0) by {
            assert(forall|i: int| 0 <= i < d.len() ==> d[i] == ls[i]);
        }
        lemma_drop_empty_lines_id(d);
        assert(d.push(ls.last()) =~= ls);
        assert(drop_empty_lines(ls) == drop_empty_lines(d).push(ls.last()));
        assert(drop_empty_lines(ls) =~= ls);
    }
}

proof fn lemma_pairs_of_insert(t: Seq<Seq<char>>, x: Seq<char>, p: int)
    requires
        0 <= p <= t.len(),
    ensures
        pairs_of(t.insert(p, x)) == pairs_of(t).insert(p, line_pair(x)),
{
    t.insert_ensures(p, x);
    pairs_of(t).insert_ensures(p, line_pair(x));
    assert forall|i: int| 0 <= i < t.len() + 1 implies pairs_of(t.insert(p, x))[i] == pairs_of(
        t,
    ).insert(p, line_pair(x))[i] by {
        if i < p {
            assert(t.insert(p, x)[i] == t[i]);
            assert(pairs_of(t).insert(p, line_pair(x))[i] == pairs_of(t)[i]);
        } else if i == p {
            assert(t.insert(p, x)[p] == x);
            assert(pairs_of(t).insert(p, line_pair(x))[p] == line_pair(x));
        } else {
            assert(t.insert(p, x)[(i - 1) + 1] == t[i - 1]);
            assert(pairs_of(t).insert(p, line_pair(x))[(i - 1) + 1] == pairs_of(t)[i - 1]);
        }
    }
    assert(pairs_of(t.insert(p, x)) =~= pairs_of(t).insert(p, line_pair(x)));
}

proof fn lemma_sort_lines_pairs_multiset(s: Seq<Seq<char>>)
    ensures
        pairs_of(sort_lines(s)).to_multiset() == pairs_of(s).to_multiset(),
    decreases s.len(),
{
    broadcast use vstd::seq_lib::group_to_multiset_ensures;

    if s.len() == 0 {
        assert(pairs_of(sort_lines(s)) =~= pairs_of(s));
    } else {
        let d = s.drop_last();
        let x = s.last();
        lemma_sort_lines_pairs_multiset(d);
        lemma_insert_line_shape(sort_lines(d), x);
        let p = insert_pos(sort_lines(d), x);
        lemma_pairs_of_insert(sort_lines(d), x, p);
        assert(pairs_of(sort_lines(s)) == pairs_of(sort_lines(d)).insert(p, line_pair(x)));
        assert(pairs_of(sort_lines(d)).insert(p, line_pair(x)).to_multiset() == pairs_of(
            sort_lines(d),
        ).to_multiset().insert(line_pair(x)));
        assert(pairs_of(s) =~= pairs_of(d).push(line_pair(x)));
        assert(pairs_of(d).push(line_pair(x)).to_multiset() == pairs_of(d).to_multiset().insert(
            line_pair(x),
        ));
    }
}

/// The round-trip law: re-parsing the rendered text of a JSON object — cut
/// at newlines, empty lines discarded, each line cut at its first `=` —
/// recovers exactly the transformed entries: the same multiset of pairs of
/// transformed key and stringified value. It holds whenever every value is
/// renderable, no transformed key contains `=` or a newline, and no
/// stringified value contains a newline; a string value with an embedded
/// newline, for one, falls outside it.
proof fn lemma_rendered_lines_clean(entries: Seq<(Seq<char>, JsonValModel)>)
    requires
        forall|i: int|
            0 <= i < entries.len() ==> !env_key_of(
                (#[trigger] entries[i]).0,
            ).contains('=') && !env_key_of(entries[i].0).contains('\n'),
        forall|i: int|
            0 <= i < entries.len() ==> !value_text_of((#[trigger] entries[i]).1).contains('\n'),
    ensures
        forall|i: int|
            0 <= i < entries.len() ==> (#[trigger] rendered_lines(entries)[i]).len() > 0,
        forall|i: int|
            0 <= i < entries.len() ==> !(#[trigger] rendered_lines(entries)[i]).contains('\n'),
        pairs_of(rendered_lines(entries)) == entry_pairs(entries),
{
    let lines = rendered_lines(entries);
    assert forall|i: int| 0 <= i < entries.len() implies (#[trigger] lines[i]).len() > 0
        && !lines[i].contains('\n') && line_pair(lines[i]) == (
    env_key_of(entries[i].0),
    value_text_of(entries[i].1),
    ) by {
        let k = env_key_of(entries[i].0);
        let v = value_text_of(entries[i].1);
        lemma_line_clean(k, v);
        assert(lines[i] == k + "="@ + v);
    }
    assert(pairs_of(lines) =~= entry_pairs(entries));
}

proof fn lemma_sorted_lines_clean(lines: Seq<Seq<char>>)
    requires
        forall|i: int| 0 <= i < lines.len() ==> (#[trigger] lines[i]).len() > 0,
        forall|i: int| 0 <= i < lines.len() ==> !(#[trigger] lines[i]).contains('\n'),
    ensures
        forall|i: int|
            0 <= i < sort_lines(lines).len() ==> (#[trigger] sort_lines(lines)[i]).len() > 0,
        forall|i: int|
            0 <= i < sort_lines(lines).len() ==> !(#[trigger] sort_lines(lines)[i]).contains(
                '\n',
            ),
{
    broadcast use vstd::seq_lib::group_to_multiset_ensures;

    lemma_sort_lines_sorted(lines);
    let sorted = sort_lines(lines);
    assert forall|i: int| 0 <= i < sorted.len() implies (#[trigger] sorted[i]).len() > 0
        && !(sorted[i]).contains('\n') by {
        assert(sorted.contains(sorted[i]));
        assert(sorted.to_multiset().count(sorted[i]) > 0);
        assert(lines.to_multiset().count(sorted[i]) > 0);
        assert(lines.contains(sorted[i]));
        let j = choose|j: int| 0 <= j < lines.len() && lines[j] == sorted[i];
        assert(lines[j].len() > 0 && !lines[j].contains('\n'));
    }
}

proof fn lemma_empty_text_reparse()
    ensures
        drop_empty_lines(split_on("\n"@, '\n')) == Seq::<Seq<char>>::empty(),
{
    reveal_strlit("\n");
    let text = "\n"@;
    assert(text =~= seq!['\n']);
    assert(text.drop_first() =~= Seq::<char>::empty());
    assert(split_on(text.drop_first(), '\n') =~= seq![Seq::<char>::empty()]);
    assert(split_on(text, '\n') =~= seq![Seq::<char>::empty()] + split_on(
        text.drop_first(),
        '\n',
    ));
    assert(split_on(text, '\n') =~= seq![Seq::<char>::empty(), Seq::<char>::empty()]);
    reveal_with_fuel(Seq::<_>::filter, 3);
    assert(seq![Seq::<char>::empty(), Seq::<char>::empty()].drop_last() =~= seq![
        Seq::<char>::empty(),
    ]);
    assert(seq![Seq::<char>::empty()].drop_last() =~= Seq::<Seq<char>>::empty());
    assert(drop_empty_lines(split_on(text, '\n')) =~= Seq::<Seq<char>>::empty());
}

/// The round-trip law: re-parsing the rendered text of a JSON object — cut
/// at newlines, empty lines discarded, each line cut at its first `=` —
/// recovers exactly the transformed entries: the same multiset of pairs of
/// transformed key and stringified value. It holds whenever no transformed
/// key contains `=` or a newline and no stringified value contains a
/// newline; a string value with an embedded newline, for one, falls outside
/// it.
pub proof fn lemma_env_round_trip(entries: Seq<(Seq<char>, JsonValModel)>)
    requires
        forall|i: int|
            0 <= i < entries.len() ==> !env_key_of(
                (#[trigger] entries[i]).0,
            ).contains('=') && !env_key_of(entries[i].0).contains('\n'),
        forall|i: int|
            0 <= i < entries.len() ==> !value_text_of((#[trigger] entries[i]).1).contains('\n'),
    ensures
        parsed_pairs(object_env_text(entries)).to_multiset() == entry_pairs(
            entries,
        ).to_multiset(),
{
    let lines = rendered_lines(entries);
    let sorted = sort_lines(lines);
    let text = object_env_text(entries);
    lemma_rendered_lines_clean(entries);
    if entries.len() == 0 {
        lemma_empty_text_reparse();
        assert(text == "\n"@);
        assert(parsed_pairs(text) =~= entry_pairs(entries));
    } else {
        lemma_sort_lines_sorted(lines);
        lemma_sorted_lines_clean(lines);
        assert(text == lines_text(sorted));
        lemma_lines_text_reparse(sorted);
        lemma_drop_empty_lines_id(sorted);
        assert(drop_empty_lines(split_on(text, '\n')) == sorted);
        lemma_sort_lines_pairs_multiset(lines);
        assert(parsed_pairs(text) == pairs_of(sorted));
        assert(pairs_of(lines) == entry_pairs(entries));
    }
}

} // verus!
