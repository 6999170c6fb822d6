//! Batch processing: each raw key is checked for the required marker, split
//! into a path, resolved against the document, and rendered as one
//! `{prefix}{path}={value}` line; the lines are joined with newlines. A
//! required key that resolves to nothing fails the whole batch.
use vstd::prelude::*;

use crate::doc::dv_entries;
use crate::doc::get_toml_value;
use crate::doc::resolve_value;
use crate::doc::DocV;
use crate::errors::TtError;
use crate::parse::parse_document;
use crate::parse::parsed_doc;
use crate::text::join_strings;
use crate::text::join_with;
use crate::text::lemma_dv_index;
use crate::text::split_on;
use crate::text::split_str;
use crate::text::strip_prefix_exec;
use crate::text::strip_prefix_spec;

verus! {

/// Whether the raw key text marks the key required: it starts with the
/// required-marker prefix.
pub open spec fn key_required(key: Seq<char>, rp: Seq<char>) -> bool {
    rp.is_prefix_of(key)
}

/// The path of a raw key: the required marker is stripped where present and
/// the rest is split on the delimiter.
pub open spec fn key_path_of(key: Seq<char>, rp: Seq<char>, d: Seq<char>) -> Seq<Seq<char>> {
    split_on(strip_prefix_spec(key, rp), d)
}

/// The rendered value a raw key resolves to in the document entries `es`.
pub open spec fn key_value(
    es: Seq<(Seq<char>, DocV)>,
    key: Seq<char>,
    rp: Seq<char>,
    d: Seq<char>,
) -> Option<Seq<char>> {
    resolve_value(es, key_path_of(key, rp, d))
}

/// Whether a raw key fails the batch: marked required yet absent.
pub open spec fn key_fails(
    es: Seq<(Seq<char>, DocV)>,
    key: Seq<char>,
    rp: Seq<char>,
    d: Seq<char>,
) -> bool {
    key_required(key, rp) && key_value(es, key, rp, d) is None
}

/// The output line of a raw key that does not fail the batch: the output
/// prefix, the path segments rejoined with the delimiter, `=`, and the
/// rendered value — empty where the key is absent.
pub open spec fn key_line(
    es: Seq<(Seq<char>, DocV)>,
    key: Seq<char>,
    op: Seq<char>,
    rp: Seq<char>,
    d: Seq<char>,
) -> Seq<char> {
    let path = key_path_of(key, rp, d);
    let value = match key_value(es, key, rp, d) {
        Option::Some(v) => v,
        Option::None => Seq::<char>::empty(),
    };
    op + join_with(path, d) + seq!['='] + value
}

/// The lines of a batch of raw keys, in key order, or the stripped name of
/// the first required key that resolves to nothing.
pub open spec fn batch_lines(
    es: Seq<(Seq<char>, DocV)>,
    keys: Seq<Seq<char>>,
    op: Seq<char>,
    rp: Seq<char>,
    d: Seq<char>,
) -> Result<Seq<Seq<char>>, Seq<char>>
    decreases keys.len(),
{
    if keys.len() == 0 {
        Ok(Seq::empty())
    } else if key_fails(es, keys[0], rp, d) {
        Err(strip_prefix_spec(keys[0], rp))
    } else {
        match batch_lines(es, keys.drop_first(), op, rp, d) {
            Result::Ok(rest) => Ok(seq![key_line(es, keys[0], op, rp, d)] + rest),
            Result::Err(k) => Err(k),
        }
    }
}

/// The whole pass over one document: its batch lines joined with newlines.
pub open spec fn process_spec(
    es: Seq<(Seq<char>, DocV)>,
    keys: Seq<Seq<char>>,
    op: Seq<char>,
    rp: Seq<char>,
    d: Seq<char>,
) -> Result<Seq<char>, Seq<char>> {
    match batch_lines(es, keys, op, rp, d) {
        Result::Ok(lines) => Ok(join_with(lines, seq!['\n'])),
        Result::Err(k) => Err(k),
    }
}

/// Appending one key to a batch appends its line, or fails with its stripped
/// name where the earlier keys passed and this one fails.
proof fn lemma_batch_snoc(
    es: Seq<(Seq<char>, DocV)>,
    keys: Seq<Seq<char>>,
    key: Seq<char>,
    op: Seq<char>,
    rp: Seq<char>,
    d: Seq<char>,
)
    ensures
        batch_lines(es, keys.push(key), op, rp, d) == match batch_lines(es, keys, op, rp, d) {
            Result::Ok(lines) => if key_fails(es, key, rp, d) {
                Err::<Seq<Seq<char>>, Seq<char>>(strip_prefix_spec(key, rp))
            } else {
                Ok::<Seq<Seq<char>>, Seq<char>>(lines.push(key_line(es, key, op, rp, d)))
            },
            Result::Err(k) => Err(k),
        },
    decreases keys.len(),
{
    let whole = keys.push(key);
    if keys.len() == 0 {
        assert(whole[0] == key);
        assert(whole.drop_first() =~= Seq::<Seq<char>>::empty());
        assert(batch_lines(es, whole.drop_first(), op, rp, d) == Ok::<Seq<Seq<char>>, Seq<char>>(
            Seq::empty(),
        ));
        assert(batch_lines(es, keys, op, rp, d) == Ok::<Seq<Seq<char>>, Seq<char>>(Seq::empty()));
        if !key_fails(es, key, rp, d) {
            assert(seq![key_line(es, key, op, rp, d)] + Seq::<Seq<char>>::empty() =~= Seq::<
                Seq<char>,
            >::empty().push(key_line(es, key, op, rp, d)));
        }
    } else {
        assert(whole[0] == keys[0]);
        assert(whole.drop_first() =~= keys.drop_first().push(key));
        lemma_batch_snoc(es, keys.drop_first(), key, op, rp, d);
        if !key_fails(es, keys[0], rp, d) {
            match batch_lines(es, keys.drop_first(), op, rp, d) {
                Result::Ok(rest) => {
                    if !key_fails(es, key, rp, d) {
                        let line0 = key_line(es, keys[0], op, rp, d);
                        let linek = key_line(es, key, op, rp, d);
                        assert(seq![line0] + rest.push(linek) =~= (seq![line0] + rest).push(
                            linek,
                        ));
                    }
                },
                Result::Err(_) => {},
            }
        }
    }
}

/// A batch whose prefix already fails, fails the same way as a whole.
proof fn lemma_batch_err_prefix(
    es: Seq<(Seq<char>, DocV)>,
    keys: Seq<Seq<char>>,
    m: int,
    op: Seq<char>,
    rp: Seq<char>,
    d: Seq<char>,
)
    requires
        0 <= m <= keys.len(),
        batch_lines(es, keys.take(m), op, rp, d) is Err,
    ensures
        batch_lines(es, keys, op, rp, d) == batch_lines(es, keys.take(m), op, rp, d),
    decreases keys.len(),
{
    assert(m > 0);
    let pre = keys.take(m);
    assert(pre[0] == keys[0]);
    if key_fails(es, keys[0], rp, d) {
    } else {
        assert(pre.drop_first() =~= keys.drop_first().take(m - 1));
        lemma_batch_err_prefix(es, keys.drop_first(), m - 1, op, rp, d);
    }
}

/// A batch with no failing key yields exactly one line per key, in key
/// order.
pub proof fn lemma_batch_ok_lines(
    es: Seq<(Seq<char>, DocV)>,
    keys: Seq<Seq<char>>,
    op: Seq<char>,
    rp: Seq<char>,
    d: Seq<char>,
)
    requires
        forall|i: int| 0 <= i < keys.len() ==> !key_fails(es, #[trigger] keys[i], rp, d),
    ensures
        batch_lines(es, keys, op, rp, d) is Ok,
        batch_lines(es, keys, op, rp, d)->Ok_0.len() == keys.len(),
        forall|i: int|
            0 <= i < keys.len() ==> batch_lines(es, keys, op, rp, d)->Ok_0[i] == key_line(
                es,
                #[trigger] keys[i],
                op,
                rp,
                d,
            ),
    decreases keys.len(),
{
    if keys.len() > 0 {
        assert(!key_fails(es, keys[0], rp, d));
        assert(forall|k: int|
            0 <= k < keys.drop_first().len() ==> #[trigger] keys.drop_first()[k] == keys[k + 1]);
        lemma_batch_ok_lines(es, keys.drop_first(), op, rp, d);
        let rest = batch_lines(es, keys.drop_first(), op, rp, d)->Ok_0;
        let all = batch_lines(es, keys, op, rp, d)->Ok_0;
        assert(all == seq![key_line(es, keys[0], op, rp, d)] + rest);
        assert forall|i: int| 0 <= i < keys.len() implies all[i] == key_line(
            es,
            #[trigger] keys[i],
            op,
            rp,
            d,
        ) by {
            if i > 0 {
                assert(all[i] == rest[i - 1]);
                assert(rest[i - 1] == key_line(es, keys.drop_first()[i - 1], op, rp, d));
            }
        }
    }
}

/// Where every key is unmarked the batch cannot fail: it yields exactly one
/// line per key, in matching order.
pub proof fn lemma_all_optional_one_line_per_key(
    es: Seq<(Seq<char>, DocV)>,
    keys: Seq<Seq<char>>,
    op: Seq<char>,
    rp: Seq<char>,
    d: Seq<char>,
)
    requires
        forall|i: int| 0 <= i < keys.len() ==> !key_required(#[trigger] keys[i], rp),
    ensures
        batch_lines(es, keys, op, rp, d) is Ok,
        batch_lines(es, keys, op, rp, d)->Ok_0.len() == keys.len(),
        forall|i: int|
            0 <= i < keys.len() ==> batch_lines(es, keys, op, rp, d)->Ok_0[i] == key_line(
                es,
                #[trigger] keys[i],
                op,
                rp,
                d,
            ),
{
    lemma_batch_ok_lines(es, keys, op, rp, d);
}

/// A batch that succeeds has no failing key.
pub proof fn lemma_batch_ok_inverse(
    es: Seq<(Seq<char>, DocV)>,
    keys: Seq<Seq<char>>,
    op: Seq<char>,
    rp: Seq<char>,
    d: Seq<char>,
)
    requires
        batch_lines(es, keys, op, rp, d) is Ok,
    ensures
        forall|i: int| 0 <= i < keys.len() ==> !key_fails(es, #[trigger] keys[i], rp, d),
    decreases keys.len(),
{
    if keys.len() > 0 {
        assert(!key_fails(es, keys[0], rp, d));
        assert(batch_lines(es, keys.drop_first(), op, rp, d) is Ok);
        lemma_batch_ok_inverse(es, keys.drop_first(), op, rp, d);
        assert forall|i: int| 0 <= i < keys.len() implies !key_fails(
            es,
            #[trigger] keys[i],
            rp,
            d,
        ) by {
            if i > 0 {
                assert(keys.drop_first()[i - 1] == keys[i]);
            }
        }
    }
}

/// In a batch that succeeds, a key that resolves to a rendered value `v`
/// yields exactly one line of its own, at the key's position: the output
/// prefix, the rejoined path, `=`, and `v`.
pub proof fn lemma_resolved_key_exact_line(
    es: Seq<(Seq<char>, DocV)>,
    keys: Seq<Seq<char>>,
    i: int,
    v: Seq<char>,
    op: Seq<char>,
    rp: Seq<char>,
    d: Seq<char>,
)
    requires
        batch_lines(es, keys, op, rp, d) is Ok,
        0 <= i < keys.len(),
        key_value(es, keys[i], rp, d) == Some(v),
    ensures
        batch_lines(es, keys, op, rp, d)->Ok_0[i] == op + join_with(
            key_path_of(keys[i], rp, d),
            d,
        ) + seq!['='] + v,
{
    lemma_batch_ok_inverse(es, keys, op, rp, d);
    lemma_batch_ok_lines(es, keys, op, rp, d);
    lemma_found_key_line(es, keys[i], v, op, rp, d);
}

/// A key that resolves to a rendered value `v` never fails the batch, and
/// its line is exactly the prefix, the rejoined path, `=`, and `v`.
pub proof fn lemma_found_key_line(
    es: Seq<(Seq<char>, DocV)>,
    key: Seq<char>,
    v: Seq<char>,
    op: Seq<char>,
    rp: Seq<char>,
    d: Seq<char>,
)
    requires
        key_value(es, key, rp, d) == Some(v),
    ensures
        !key_fails(es, key, rp, d),
        key_line(es, key, op, rp, d) == op + join_with(key_path_of(key, rp, d), d) + seq!['=']
            + v,
{
}

/// A key marked required that resolves to nothing fails the whole batch: the
/// result is an error, and no lines come out.
pub proof fn lemma_required_absent_fails(
    es: Seq<(Seq<char>, DocV)>,
    keys: Seq<Seq<char>>,
    i: int,
    op: Seq<char>,
    rp: Seq<char>,
    d: Seq<char>,
)
    requires
        0 <= i < keys.len(),
        key_required(keys[i], rp),
        key_value(es, keys[i], rp, d) is None,
    ensures
        batch_lines(es, keys, op, rp, d) is Err,
    decreases keys.len(),
{
    if key_fails(es, keys[0], rp, d) {
    } else {
        assert(i > 0);
        assert(keys.drop_first()[i - 1] == keys[i]);
        lemma_required_absent_fails(es, keys.drop_first(), i - 1, op, rp, d);
    }
}

/// A key not marked required that resolves to nothing does not fail the
/// batch, and its line carries an empty value: prefix, rejoined path, `=`,
/// and nothing after.
pub proof fn lemma_optional_absent_line(
    es: Seq<(Seq<char>, DocV)>,
    key: Seq<char>,
    op: Seq<char>,
    rp: Seq<char>,
    d: Seq<char>,
)
    requires
        !key_required(key, rp),
        key_value(es, key, rp, d) is None,
    ensures
        !key_fails(es, key, rp, d),
        key_line(es, key, op, rp, d) == op + join_with(key_path_of(key, rp, d), d) + seq!['='],
{
    let trunk = op + join_with(key_path_of(key, rp, d), d) + seq!['='];
    assert(trunk + Seq::<char>::empty() =~= trunk);
}

/// One whole batch over raw document text: the text is parsed once, then
/// every key is resolved independently and rendered as one line, the lines
/// joined with single newlines. The result is exactly what `process_spec`
/// states over the parsed document; a parse failure or a missing required
/// key is the matching error instead.
pub fn process_toml(
    toml_contents: &str,
    keys: Vec<String>,
    output_prefix: &str,
    required_prefix: &str,
    delim: &str,
) -> (r: Result<String, TtError>)
    ensures
        match r {
            Result::Ok(out) => parsed_doc(toml_contents@) matches Some(es) && process_spec(
                es,
                keys.deep_view(),
                output_prefix@,
                required_prefix@,
                delim@,
            ) == Ok::<Seq<char>, Seq<char>>(out@),
            Result::Err(e) => match e {
                TtError::Parse(_) => parsed_doc(toml_contents@) is None,
                TtError::MissingRequiredKey(name) => parsed_doc(toml_contents@) matches Some(es)
                    && process_spec(
                    es,
                    keys.deep_view(),
                    output_prefix@,
                    required_prefix@,
                    delim@,
                ) == Err::<Seq<char>, Seq<char>>(name@),
            },
        },
{
    let entries = match parse_document(toml_contents) {
        Result::Ok(es) => es,
        Result::Err(e) => {
            return Err(e);
        },
    };
    let ghost es = dv_entries(entries@);
    let ghost keyviews = keys.deep_view();
    let ghost op = output_prefix@;
    let ghost rp = required_prefix@;
    let ghost dl = delim@;
    proof {
        lemma_dv_index(&keys);
        assert(keyviews.take(0) =~= Seq::<Seq<char>>::empty());
        assert(batch_lines(es, keyviews.take(0), op, rp, dl) == Ok::<Seq<Seq<char>>, Seq<char>>(
            Seq::empty(),
        ));
    }
    let mut lines: Vec<String> = Vec::new();
    proof {
        lemma_dv_index(&lines);
        assert(lines.deep_view() =~= Seq::<Seq<char>>::empty());
    }
    let mut idx: usize = 0;
    while idx < keys.len()
        invariant
            idx <= keys@.len(),
            keyviews == keys.deep_view(),
            keyviews.len() == keys@.len(),
            forall|k: int| 0 <= k < keyviews.len() ==> keyviews[k] == (#[trigger] keys@[k])@,
            es == dv_entries(entries@),
            parsed_doc(toml_contents@) == Some(es),
            op == output_prefix@ && rp == required_prefix@ && dl == delim@,
            batch_lines(es, keyviews.take(idx as int), op, rp, dl) == Ok::<
                Seq<Seq<char>>,
                Seq<char>,
            >(lines.deep_view()),
        decreases keys@.len() - idx,
    {
        let raw: &String = &keys[idx];
        let (required, stripped) = strip_prefix_exec(raw.as_str(), required_prefix);
        let path = split_str(stripped.as_str(), delim);
        let bash_key = join_strings(&path, delim);
        let value_opt = get_toml_value(&entries, &path);
        let ghost kv = keyviews[idx as int];
        proof {
            assert(stripped@ == strip_prefix_spec(kv, rp));
            assert(path.deep_view() == key_path_of(kv, rp, dl));
        }
        let value = match (required, value_opt) {
            (true, Option::None) => {
                proof {
                    assert(key_fails(es, kv, rp, dl));
                    lemma_batch_snoc(es, keyviews.take(idx as int), kv, op, rp, dl);
                    assert(keyviews.take(idx as int).push(kv) =~= keyviews.take(idx + 1));
                    assert(batch_lines(es, keyviews.take(idx + 1), op, rp, dl) == Err::<
                        Seq<Seq<char>>,
                        Seq<char>,
                    >(strip_prefix_spec(kv, rp)));
                    lemma_batch_err_prefix(es, keyviews, idx + 1, op, rp, dl);
                    assert(batch_lines(es, keyviews, op, rp, dl) == Err::<
                        Seq<Seq<char>>,
                        Seq<char>,
                    >(strip_prefix_spec(kv, rp)));
                    assert(process_spec(es, keyviews, op, rp, dl) == Err::<Seq<char>, Seq<char>>(
                        stripped@,
                    ));
                }
                return Err(TtError::MissingRequiredKey(stripped));
            },
            (false, Option::None) => String::new(),
            (_, Option::Some(v)) => v,
        };
        let mut line = String::from_str(output_prefix);
        line.append(bash_key.as_str());
        line.append("=");
        line.append(value.as_str());
        proof {
            reveal_strlit("=");
            assert("="@ =~= seq!['=']);
            assert(line@ == key_line(es, kv, op, rp, dl)) by {
                if value_opt is None {
                    assert(op + join_with(key_path_of(kv, rp, dl), dl) + seq!['='] + value@ =~= op
                        + join_with(key_path_of(kv, rp, dl), dl) + seq!['=']);
                    lemma_optional_absent_line(es, kv, op, rp, dl);
                }
            }
        }
        let ghost prev_lines = lines.deep_view();
        lines.push(line);
        proof {
            lemma_dv_index(&lines);
            assert(lines.deep_view() =~= prev_lines.push(line@));
            lemma_batch_snoc(es, keyviews.take(idx as int), kv, op, rp, dl);
            assert(keyviews.take(idx as int).push(kv) =~= keyviews.take(idx + 1));
        }
        idx += 1;
    }
    proof {
        assert(keyviews.take(keyviews.len() as int) =~= keyviews);
        reveal_strlit("\n");
        assert("\n"@ =~= seq!['\n']);
    }
    let out = join_strings(&lines, "\n");
    Ok(out)
}

} // verus!
