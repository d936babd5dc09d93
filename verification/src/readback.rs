//! What the VDF reader finds in a manifest: values without tabs or
//! newlines, and, after the `betakey` rewriter has switched the manifest, the
//! branch switched to.

use vstd::prelude::*;
use crate::steam::{
    acf_fold, acf_rewritable, acf_step, acf_with_betakey, betakey_line, branch_betakey,
    branch_of, indentation, in_i32, keep_nonempty, law_betakey_line_reads_back,
    law_branch_names_denote_branch, manifest_betakey, no_config_headers,
    parse_vdf, vdf_apply, vdf_fields, vdf_fold, vdf_key, vdf_kind, vdf_tokens, AcfState, Branch,
    VdfKind,
};
use crate::text::{
    ascii_lower, clean_lines, contains_text, is_white_space, join, joined_lines,
    lemma_first_of, lemma_lines_no_newline, lemma_lines_of_joined, lemma_lines_push_newline, lines,
    lower_text, occurs_at, split_char, strip_pred, trim, trim_end_by, trim_quotes, trim_start_by,
};
use vstd::utf8::is_ascii_chars;

verus! {

/// The rewriter replaces a line of a config section when its trimmed,
/// lowercased text holds `"betakey"`.
pub open spec fn rewrites(line: Seq<char>) -> bool {
    contains_text(lower_text(trim(line)), "\"betakey\""@)
}

/// The line (without its newline) that the rewriter writes for `key`.
pub open spec fn written_line(indent: Seq<char>, key: Seq<char>) -> Seq<char> {
    betakey_line(indent, key).drop_last()
}

/// The lines the rewriter writes for the lines `body` of a config section.
pub open spec fn body_out(body: Seq<Seq<char>>, key: Seq<char>) -> Seq<Seq<char>> {
    body.map_values(
        |l: Seq<char>|
            if rewrites(l) {
                written_line(indentation(l), key)
            } else {
                l
            },
    )
}

/// Some line of `body` is replaced.
pub open spec fn any_rewrites(body: Seq<Seq<char>>) -> bool {
    exists|i: int| 0 <= i < body.len() && rewrites(#[trigger] body[i])
}

/// A line of a `UserConfig` section's body as the law takes it: an entry or
/// a line the reader ignores (so no brace and no section header), naming
/// neither config section, and, where it is an entry for the key `betakey`,
/// one that the rewriter replaces.
pub open spec fn plain_body_line(l: Seq<char>) -> bool {
    &&& (vdf_kind(l) is Entry || vdf_kind(l) is Ignored)
    &&& !contains_text(trim(l), "\"UserConfig\""@)
    &&& !contains_text(trim(l), "\"MountedConfig\""@)
    &&& (vdf_kind(l) matches VdfKind::Entry(k, _) && k == "betakey"@ ==> rewrites(l))
}

/// A key the rewriter can write so that the reader reads it back: no tab or
/// newline, and no quote at either end.
pub open spec fn writable_key(key: Seq<char>) -> bool {
    &&& forall|i: int| 0 <= i < key.len() ==> #[trigger] key[i] != '\t' && key[i] != '\n'
    &&& (key.len() > 0 ==> key[0] != '"' && key.last() != '"')
}

/// The rewriter is outside both config sections, with no failure so far.
pub open spec fn outside(st: AcfState) -> bool {
    !st.in_user && !st.in_mounted && st.ok && in_i32(st.depth)
}

proof fn lemma_short_text(s: Seq<char>, pat: Seq<char>)
    requires
        s.len() < pat.len(),
    ensures
        !contains_text(s, pat),
{
}

proof fn lemma_joined_lines_append(a: Seq<Seq<char>>, b: Seq<Seq<char>>)
    ensures
        joined_lines(a + b) == joined_lines(a) + joined_lines(b),
    decreases b.len(),
{
    if b.len() == 0 {
        assert(a + b =~= a);
        assert(joined_lines(a) + joined_lines(b) =~= joined_lines(a));
    } else {
        lemma_joined_lines_append(a, b.drop_last());
        assert((a + b).drop_last() =~= a + b.drop_last());
        assert((a + b).last() == b.last());
        assert(joined_lines(a + b) =~= joined_lines(a) + joined_lines(b));
    }
}

/// Lines outside the config sections are copied as they are.
proof fn lemma_acf_copy(pre: Seq<Seq<char>>, ls: Seq<Seq<char>>, key: Seq<char>)
    requires
        outside(acf_fold(pre, key)),
        no_config_headers(ls),
    ensures
        acf_fold(pre + ls, key) == (AcfState {
            out: acf_fold(pre, key).out + joined_lines(ls),
            ..acf_fold(pre, key)
        }),
    decreases ls.len(),
{
    let st = acf_fold(pre, key);
    if ls.len() == 0 {
        assert(pre + ls =~= pre);
        assert(st.out + joined_lines(ls) =~= st.out);
    } else {
        assert forall|i: int| 0 <= i < ls.drop_last().len() implies !contains_text(
            trim(#[trigger] ls.drop_last()[i]),
            "\"UserConfig\""@,
        ) && !contains_text(trim(ls.drop_last()[i]), "\"MountedConfig\""@) by {
            assert(ls.drop_last()[i] == ls[i]);
        }
        lemma_acf_copy(pre, ls.drop_last(), key);
        assert((pre + ls).drop_last() =~= pre + ls.drop_last());
        assert((pre + ls).last() == ls.last());
        assert(ls[ls.len() - 1] == ls.last());
        let mid = acf_fold(pre + ls.drop_last(), key);
        assert(acf_fold(pre + ls, key) == acf_step(mid, ls.last(), key));
        assert(acf_step(mid, ls.last(), key).out =~= st.out + joined_lines(ls));
    }
}

/// The `UserConfig` header line.
pub open spec fn user_header(l: Seq<char>) -> bool {
    trim(l) == "\"UserConfig\""@
}

proof fn lemma_user_header_text(l: Seq<char>)
    requires
        user_header(l),
    ensures
        contains_text(trim(l), "\"UserConfig\""@),
        !rewrites(l),
        trim(l) != seq!['{'],
        trim(l) != seq!['}'],
        lower_text(trim(l)) == "\"userconfig\""@,
{
    reveal_strlit("\"UserConfig\"");
    reveal_strlit("\"userconfig\"");
    reveal_strlit("\"betakey\"");
    let t = trim(l);
    assert(t.len() == 12);
    assert(occurs_at(t, "\"UserConfig\""@, 0)) by {
        assert(t.subrange(0, 12) =~= t);
    }
    assert(is_ascii_chars(t));
    let lt = ascii_lower(t);
    assert(lt =~= "\"userconfig\""@);
    let pat = "\"betakey\""@;
    assert forall|i: int| !occurs_at(lt, pat, i) by {
        if 0 <= i && i + 9 <= 12 {
            if i == 0 {
                assert(lt.subrange(i, i + 9)[2] != pat[2]);
            } else if i == 1 {
                assert(lt.subrange(i, i + 9)[1] != pat[1]);
            } else {
                assert(lt.subrange(i, i + 9)[0] != pat[0]);
            }
        }
    }
    assert(t[0] == '"');
}

/// A line whose trimmed text is one brace.
pub open spec fn brace_line(l: Seq<char>, b: char) -> bool {
    trim(l) == seq![b]
}

proof fn lemma_brace_text(l: Seq<char>, b: char)
    requires
        brace_line(l, b),
        b == '{' || b == '}',
    ensures
        !contains_text(trim(l), "\"UserConfig\""@),
        !contains_text(trim(l), "\"MountedConfig\""@),
        !rewrites(l),
{
    reveal_strlit("\"UserConfig\"");
    reveal_strlit("\"MountedConfig\"");
    reveal_strlit("\"betakey\"");
    let t = trim(l);
    assert(is_ascii_chars(t));
    assert(lower_text(t).len() == 1);
    lemma_short_text(t, "\"UserConfig\""@);
    lemma_short_text(t, "\"MountedConfig\""@);
    lemma_short_text(lower_text(t), "\"betakey\""@);
}

/// The lines written in place of a missing `betakey` line at the end of a
/// section.
pub open spec fn inserted(body: Seq<Seq<char>>, key: Seq<char>) -> Seq<Seq<char>> {
    if any_rewrites(body) {
        seq![]
    } else {
        seq![written_line("\t\t"@, key)]
    }
}

proof fn lemma_written_line(indent: Seq<char>, key: Seq<char>)
    ensures
        written_line(indent, key).push('\n') == betakey_line(indent, key),
        betakey_line(indent, key).len() > 0,
{
    reveal_strlit("\"\n");
    let b = betakey_line(indent, key);
    assert(b.last() == '\n');
    assert(b.drop_last().push('\n') =~= b);
}

/// The body of a `UserConfig` section: each line copied or replaced.
proof fn lemma_acf_body(pre: Seq<Seq<char>>, body: Seq<Seq<char>>, key: Seq<char>)
    requires
        acf_fold(pre, key).in_user,
        !acf_fold(pre, key).in_mounted,
        acf_fold(pre, key).depth == 1,
        acf_fold(pre, key).ok,
        forall|i: int| 0 <= i < body.len() ==> plain_body_line(#[trigger] body[i]),
    ensures
        acf_fold(pre + body, key) == (AcfState {
            found_user: acf_fold(pre, key).found_user || any_rewrites(body),
            out: acf_fold(pre, key).out + joined_lines(body_out(body, key)),
            ..acf_fold(pre, key)
        }),
    decreases body.len(),
{
    let st = acf_fold(pre, key);
    if body.len() == 0 {
        assert(pre + body =~= pre);
        assert(body_out(body, key) =~= Seq::<Seq<char>>::empty());
        assert(st.out + joined_lines(body_out(body, key)) =~= st.out);
    } else {
        let b0 = body.drop_last();
        let l = body.last();
        assert forall|i: int| 0 <= i < b0.len() implies plain_body_line(#[trigger] b0[i]) by {
            assert(b0[i] == body[i]);
        }
        lemma_acf_body(pre, b0, key);
        assert((pre + body).drop_last() =~= pre + b0);
        assert((pre + body).last() == l);
        assert(plain_body_line(body[body.len() - 1]));
        let mid = acf_fold(pre + b0, key);
        assert(acf_fold(pre + body, key) == acf_step(mid, l, key));
        assert(trim(l) != seq!['{'] && trim(l) != seq!['}']);
        assert(body_out(body, key).drop_last() =~= body_out(b0, key));
        lemma_written_line(indentation(l), key);
        if any_rewrites(body) && !rewrites(l) {
            let i = choose|i: int| 0 <= i < body.len() && rewrites(#[trigger] body[i]);
            assert(i < b0.len());
            assert(b0[i] == body[i]);
        }
        if any_rewrites(b0) {
            let i = choose|i: int| 0 <= i < b0.len() && rewrites(#[trigger] b0[i]);
            assert(body[i] == b0[i]);
        }
        if rewrites(l) {
            assert(rewrites(body[body.len() - 1]));
        }
        assert(acf_step(mid, l, key).out =~= st.out + joined_lines(body_out(body, key)));
    }
}

proof fn lemma_step_header(st: AcfState, h: Seq<char>, key: Seq<char>)
    requires
        outside(st),
        user_header(h),
    ensures
        acf_step(st, h, key) == (AcfState { in_user: true, depth: 0, out: st.out + h + seq!['\n'], ..st }),
{
    lemma_user_header_text(h);
    assert(in_i32(0));
}

proof fn lemma_step_open(st: AcfState, o: Seq<char>, key: Seq<char>)
    requires
        st.in_user,
        !st.in_mounted,
        st.depth == 0,
        st.ok,
        brace_line(o, '{'),
    ensures
        acf_step(st, o, key) == (AcfState { depth: 1, out: st.out + o + seq!['\n'], ..st }),
{
    lemma_brace_text(o, '{');
    assert(seq!['{'] != seq!['}']) by {
        assert(seq!['}'][0] != seq!['{'][0]);
    }
    assert(in_i32(1));
}

proof fn lemma_step_close(st: AcfState, cl: Seq<char>, key: Seq<char>)
    requires
        st.in_user,
        !st.in_mounted,
        st.depth == 1,
        st.ok,
        brace_line(cl, '}'),
    ensures
        acf_step(st, cl, key) == (AcfState {
            in_user: false,
            depth: 0,
            out: st.out + (if st.found_user {
                Seq::<char>::empty()
            } else {
                betakey_line("\t\t"@, key)
            }) + cl + seq!['\n'],
            ..st
        }),
{
    lemma_brace_text(cl, '}');
    assert(seq!['}'] != seq!['{']) by {
        assert(seq!['}'][0] != seq!['{'][0]);
    }
    assert(in_i32(1) && in_i32(0));
    let nx = acf_step(st, cl, key);
    assert(nx.out =~= st.out + (if st.found_user {
        Seq::<char>::empty()
    } else {
        betakey_line("\t\t"@, key)
    }) + cl + seq!['\n']);
}

proof fn lemma_section_text(
    h: Seq<char>,
    o: Seq<char>,
    body: Seq<Seq<char>>,
    cl: Seq<char>,
    key: Seq<char>,
)
    ensures
        joined_lines(seq![h, o] + body_out(body, key) + inserted(body, key) + seq![cl]) == h + seq![
            '\n',
        ] + o + seq!['\n'] + joined_lines(body_out(body, key)) + (if any_rewrites(body) {
            Seq::<char>::empty()
        } else {
            betakey_line("\t\t"@, key)
        }) + cl + seq!['\n'],
{
    lemma_written_line("\t\t"@, key);
    let ins = inserted(body, key);
    assert(joined_lines(ins) == (if any_rewrites(body) {
        Seq::<char>::empty()
    } else {
        betakey_line("\t\t"@, key)
    })) by {
        if !any_rewrites(body) {
            assert(ins.drop_last() =~= Seq::<Seq<char>>::empty());
            assert(joined_lines(Seq::<Seq<char>>::empty()) =~= Seq::<char>::empty());
            assert(ins.last() == written_line("\t\t"@, key));
            assert(joined_lines(ins) =~= written_line("\t\t"@, key).push('\n'));
        } else {
            assert(ins =~= Seq::<Seq<char>>::empty());
        }
    }
    lemma_joined_lines_append(seq![h, o], body_out(body, key));
    lemma_joined_lines_append(seq![h, o] + body_out(body, key), ins);
    lemma_joined_lines_append(seq![h, o] + body_out(body, key) + ins, seq![cl]);
    assert(joined_lines(Seq::<Seq<char>>::empty()) =~= Seq::<char>::empty());
    assert(seq![h, o].drop_last() =~= seq![h]);
    assert(seq![h, o].last() == o);
    assert(seq![h].drop_last() =~= Seq::<Seq<char>>::empty());
    assert(seq![h].last() == h);
    assert(joined_lines(seq![h]) =~= h + seq!['\n']);
    assert(joined_lines(seq![h, o]) =~= h + seq!['\n'] + o + seq!['\n']);
    assert(seq![cl].drop_last() =~= Seq::<Seq<char>>::empty());
    assert(seq![cl].last() == cl);
    assert(joined_lines(seq![cl]) =~= cl + seq!['\n']);
    assert(joined_lines(seq![h, o] + body_out(body, key) + ins + seq![cl]) =~= h + seq!['\n'] + o
        + seq!['\n'] + joined_lines(body_out(body, key)) + joined_lines(ins) + cl + seq!['\n']);
}

/// A `UserConfig` section whose braces stand on lines of their own: its
/// `betakey` lines are replaced, or one is added before the closing brace.
#[verifier::rlimit(100)]
proof fn lemma_acf_user_section(
    pre: Seq<Seq<char>>,
    h: Seq<char>,
    o: Seq<char>,
    body: Seq<Seq<char>>,
    cl: Seq<char>,
    key: Seq<char>,
)
    requires
        outside(acf_fold(pre, key)),
        !acf_fold(pre, key).found_user,
        user_header(h),
        brace_line(o, '{'),
        forall|i: int| 0 <= i < body.len() ==> plain_body_line(#[trigger] body[i]),
        brace_line(cl, '}'),
    ensures
        acf_fold(pre + seq![h, o] + body + seq![cl], key) == (AcfState {
            found_user: any_rewrites(body),
            depth: 0,
            out: acf_fold(pre, key).out + joined_lines(
                seq![h, o] + body_out(body, key) + inserted(body, key) + seq![cl],
            ),
            ..acf_fold(pre, key)
        }),
{
    let st = acf_fold(pre, key);
    let p1 = pre.push(h);
    assert(p1.drop_last() =~= pre);
    lemma_step_header(st, h, key);
    let s1 = acf_fold(p1, key);
    let p2 = p1.push(o);
    assert(p2.drop_last() =~= p1);
    lemma_step_open(s1, o, key);
    assert(p2 =~= pre + seq![h, o]);
    lemma_acf_body(p2, body, key);
    let p3 = p2 + body;
    let s3 = acf_fold(p3, key);
    let p4 = p3.push(cl);
    assert(p4.drop_last() =~= p3);
    assert(p4 =~= pre + seq![h, o] + body + seq![cl]);
    lemma_step_close(s3, cl, key);
    lemma_section_text(h, o, body, cl, key);
    assert(acf_fold(p4, key).out =~= st.out + joined_lines(
        seq![h, o] + body_out(body, key) + inserted(body, key) + seq![cl],
    ));
}

proof fn lemma_user_text_trim()
    ensures
        trim("\"UserConfig\""@) == "\"UserConfig\""@,
        split_char("\"UserConfig\""@, '\t') == seq!["\"UserConfig\""@],
{
    reveal_strlit("\"UserConfig\"");
    let t = "\"UserConfig\""@;
    let ws = strip_pred(false);
    assert(t.len() == 12);
    assert forall|i: int| 0 <= i < t.len() implies t[i] != '\t' by {}
    lemma_first_of(t, '\t', t.len() as int);
    assert(trim_start_by(t, ws) == t);
    assert(trim_end_by(t, ws) == t);
}

proof fn lemma_user_text_quotes()
    ensures
        trim_quotes("\"UserConfig\""@) == "UserConfig"@,
        lower_text("UserConfig"@) == "userconfig"@,
{
    reveal_strlit("\"UserConfig\"");
    reveal_strlit("UserConfig");
    reveal_strlit("userconfig");
    let t = "\"UserConfig\""@;
    let q = strip_pred(true);
    let mid = "UserConfig"@;
    assert(t.drop_first() =~= mid + seq!['"']);
    assert(trim_start_by(t, q) == trim_start_by(t.drop_first(), q));
    assert(trim_start_by(mid + seq!['"'], q) == mid + seq!['"']);
    assert((mid + seq!['"']).drop_last() =~= mid);
    assert(trim_end_by(mid + seq!['"'], q) == trim_end_by(mid, q));
    assert(trim_end_by(mid, q) == mid);
    assert(is_ascii_chars(mid));
    assert(ascii_lower(mid) =~= "userconfig"@);
}

proof fn lemma_single_field(t: Seq<char>)
    requires
        t.len() > 0,
        trim(t) == t,
        split_char(t, '\t') == seq![t],
    ensures
        keep_nonempty(split_char(t, '\t').map_values(|p: Seq<char>| trim(p))) == seq![t],
{
    let pieces = split_char(t, '\t').map_values(|p: Seq<char>| trim(p));
    assert(pieces =~= seq![t]);
    assert(seq![t].drop_last() =~= Seq::<Seq<char>>::empty());
    assert(keep_nonempty(Seq::<Seq<char>>::empty()) =~= Seq::<Seq<char>>::empty());
    assert(keep_nonempty(seq![t]) =~= seq![t]);
}

/// The reader takes the `UserConfig` header for the section `userconfig`.
#[verifier::rlimit(100)]
proof fn lemma_user_header_kind(h: Seq<char>)
    requires
        user_header(h),
    ensures
        vdf_kind(h) == VdfKind::Section("userconfig"@),
{
    lemma_user_text_trim();
    lemma_user_text_quotes();
    reveal_strlit("\"UserConfig\"");
    let t = trim(h);
    assert(t.len() == 12);
    assert(t != seq!['{'] && t != seq!['}']);
    lemma_single_field(t);
    let f = vdf_fields(h);
    assert(f == seq![t]);
    let toks = f.map_values(|p: Seq<char>| trim_quotes(p));
    assert(toks =~= seq!["UserConfig"@]);
    assert(vdf_tokens(h) == toks);
}

/// The full key the branch is read from.
pub open spec fn user_betakey_key() -> Seq<char> {
    "appstate.userconfig.betakey"@
}

/// The sections `AppState` and `UserConfig`, as the reader names them.
pub open spec fn user_stack() -> Seq<Seq<char>> {
    seq!["appstate"@, "userconfig"@]
}

/// `m` gives `key` for the user `betakey`.
pub open spec fn holds_key(m: Map<Seq<char>, Seq<char>>, key: Seq<char>) -> bool {
    m.dom().contains(user_betakey_key()) && m[user_betakey_key()] == key
}

/// The line is an entry for the key `betakey`.
pub open spec fn betakey_entry(l: Seq<char>) -> bool {
    vdf_kind(l) matches VdfKind::Entry(k, _) && k == "betakey"@
}

proof fn lemma_user_key(k: Seq<char>)
    ensures
        vdf_key(user_stack(), k) == user_betakey_key() <==> k == "betakey"@,
{
    reveal_strlit("appstate");
    reveal_strlit("userconfig");
    reveal_strlit("betakey");
    reveal_strlit("appstate.userconfig.betakey");
    let st = user_stack();
    assert(st.drop_last() =~= seq!["appstate"@]);
    assert(join(st.drop_last(), seq!['.']) == "appstate"@);
    let pre = "appstate"@ + seq!['.'] + "userconfig"@ + seq!['.'];
    assert(pre.len() == 20);
    assert(vdf_key(st, k) =~= pre + k);
    assert(user_betakey_key() =~= pre + "betakey"@);
    if pre + k == pre + "betakey"@ {
        assert((pre + k).skip(20) =~= k);
        assert((pre + "betakey"@).skip(20) =~= "betakey"@);
    }
}

/// Entries and ignored lines leave the open sections as they are.
proof fn lemma_vdf_flat(pre: Seq<Seq<char>>, ls: Seq<Seq<char>>)
    requires
        forall|i: int|
            0 <= i < ls.len() ==> (vdf_kind(#[trigger] ls[i]) is Entry || vdf_kind(ls[i]) is Ignored),
    ensures
        vdf_fold(pre + ls).stack == vdf_fold(pre).stack,
    decreases ls.len(),
{
    if ls.len() == 0 {
        assert(pre + ls =~= pre);
    } else {
        let l0 = ls.drop_last();
        assert forall|i: int| 0 <= i < l0.len() implies (vdf_kind(#[trigger] l0[i]) is Entry
            || vdf_kind(l0[i]) is Ignored) by {
            assert(l0[i] == ls[i]);
        }
        lemma_vdf_flat(pre, l0);
        assert((pre + ls).drop_last() =~= pre + l0);
        assert((pre + ls).last() == ls[ls.len() - 1]);
    }
}

/// Trimming the start of `s` drops a prefix of characters that satisfy `p`.
proof fn lemma_trim_start_drops(s: Seq<char>, p: spec_fn(char) -> bool)
    ensures
        trim_start_by(s, p).len() <= s.len(),
        trim_start_by(s, p) == s.skip(s.len() - trim_start_by(s, p).len()),
        forall|i: int| 0 <= i < s.len() - trim_start_by(s, p).len() ==> p(#[trigger] s[i]),
    decreases s.len(),
{
    if s.len() > 0 && p(s[0]) {
        lemma_trim_start_drops(s.drop_first(), p);
        let r = trim_start_by(s, p);
        assert(s.drop_first().skip(s.drop_first().len() - r.len()) =~= s.skip(s.len() - r.len()));
        assert forall|i: int| 0 <= i < s.len() - r.len() implies p(#[trigger] s[i]) by {
            if i > 0 {
                assert(s[i] == s.drop_first()[i - 1]);
            }
        }
    } else {
        assert(s.skip(0) =~= s);
    }
}

/// The indentation of a line is white space taken from the line.
proof fn lemma_indentation(l: Seq<char>)
    ensures
        indentation(l).len() <= l.len(),
        forall|i: int|
            0 <= i < indentation(l).len() ==> is_white_space(#[trigger] indentation(l)[i])
                && indentation(l)[i] == l[i],
{
    let p = strip_pred(false);
    lemma_trim_start_drops(l, p);
    assert forall|i: int| 0 <= i < indentation(l).len() implies is_white_space(
        #[trigger] indentation(l)[i],
    ) && indentation(l)[i] == l[i] by {
        assert(indentation(l)[i] == l[i]);
        assert(p(l[i]));
    }
}

/// A line the rewriter writes is read as the entry `betakey` with `key`,
/// and it is one clean line.
proof fn lemma_written_line_reads(indent: Seq<char>, key: Seq<char>)
    requires
        forall|i: int|
            0 <= i < indent.len() ==> is_white_space(#[trigger] indent[i]) && indent[i] != '\n',
        writable_key(key),
    ensures
        vdf_kind(written_line(indent, key)) == VdfKind::Entry("betakey"@, key),
        betakey_entry(written_line(indent, key)),
        vdf_kind(written_line(indent, key))->Entry_1 == key,
        written_line(indent, key).len() > 0,
        written_line(indent, key).last() == '"',
        forall|j: int|
            0 <= j < written_line(indent, key).len() ==> #[trigger] written_line(indent, key)[j]
                != '\n',
{
    reveal_strlit("\"\n");
    law_betakey_line_reads_back(indent, key);
    let b = betakey_line(indent, key);
    lemma_lines_no_newline(b);
    assert(lines(b)[0] == written_line(indent, key));
    assert forall|j: int| 0 <= j < written_line(indent, key).len() implies #[trigger] written_line(
        indent,
        key,
    )[j] != '\n' by {
        assert(lines(b)[0][j] != '\n');
    }
    assert(b[b.len() - 2] == '"');
}

/// What the reader finds in the rewritten body of a `UserConfig` section.
proof fn lemma_body_out_reads(body: Seq<Seq<char>>, key: Seq<char>)
    requires
        forall|i: int| 0 <= i < body.len() ==> plain_body_line(#[trigger] body[i]),
        clean_lines(body),
        writable_key(key),
    ensures
        clean_lines(body_out(body, key) + inserted(body, key)),
        forall|i: int|
            0 <= i < (body_out(body, key) + inserted(body, key)).len() ==> (vdf_kind(
                #[trigger] (body_out(body, key) + inserted(body, key))[i],
            ) is Entry || vdf_kind((body_out(body, key) + inserted(body, key))[i]) is Ignored),
        forall|i: int|
            0 <= i < (body_out(body, key) + inserted(body, key)).len() && #[trigger] betakey_entry(
                (body_out(body, key) + inserted(body, key))[i],
            ) ==> vdf_kind((body_out(body, key) + inserted(body, key))[i])->Entry_1 == key,
        exists|i: int|
            0 <= i < (body_out(body, key) + inserted(body, key)).len() && #[trigger] betakey_entry(
                (body_out(body, key) + inserted(body, key))[i],
            ),
{
    let bo = body_out(body, key) + inserted(body, key);
    let n = body.len() as int;
    reveal_strlit("\t\t");
    let tabs = "\t\t"@;
    assert forall|i: int| 0 <= i < tabs.len() implies is_white_space(#[trigger] tabs[i])
        && tabs[i] != '\n' by {}
    lemma_written_line_reads(tabs, key);
    assert forall|i: int| 0 <= i < bo.len() implies (forall|j: int|
        0 <= j < bo[i].len() ==> #[trigger] bo[i][j] != '\n') && (#[trigger] bo[i].len() > 0
        ==> bo[i].last() != '\r') && (vdf_kind(bo[i]) is Entry || vdf_kind(bo[i]) is Ignored) && (
    betakey_entry(bo[i]) ==> vdf_kind(bo[i])->Entry_1 == key) by {
        if i < n {
            let l = body[i];
            assert(plain_body_line(l));
            if rewrites(l) {
                assert(bo[i] == written_line(indentation(l), key));
                lemma_indentation(l);
                assert forall|k: int| 0 <= k < indentation(l).len() implies is_white_space(
                    #[trigger] indentation(l)[k],
                ) && indentation(l)[k] != '\n' by {
                    assert(indentation(l)[k] == l[k]);
                    assert(0 <= k < body[i].len());
                    assert(body[i][k] != '\n');
                }
                lemma_written_line_reads(indentation(l), key);
            } else {
                assert(bo[i] == l);
                assert(!betakey_entry(l));
            }
        } else {
            assert(!any_rewrites(body));
            assert(bo[i] == written_line(tabs, key));
        }
    }
    assert(clean_lines(bo));
    if any_rewrites(body) {
        let i = choose|i: int| 0 <= i < body.len() && rewrites(#[trigger] body[i]);
        let l = body[i];
        assert(bo[i] == written_line(indentation(l), key));
        lemma_indentation(l);
        assert forall|k: int| 0 <= k < indentation(l).len() implies is_white_space(
            #[trigger] indentation(l)[k],
        ) && indentation(l)[k] != '\n' by {
            assert(indentation(l)[k] == l[k]);
            assert(0 <= k < body[i].len());
            assert(body[i][k] != '\n');
        }
        lemma_written_line_reads(indentation(l), key);
        assert(betakey_entry(bo[i]));
    } else {
        assert(bo[n] == written_line(tabs, key));
        assert(betakey_entry(bo[n]));
    }
}

/// The lines `lines(c)` up to the end of a `UserConfig` section from the
/// header at `u` to the closing brace at `e`, as the laws take them:
/// - no line ends with a carriage return;
/// - before the header, no line names a config section, and the reader has
///   exactly the section `AppState` open (the header stands directly in it);
/// - the header line is `"UserConfig"`, and the section's braces stand on
///   lines of their own;
/// - the lines between the braces are entries or ignored lines that name no
///   config section, and each entry for `betakey` is one the rewriter replaces;
/// - after the section, no line the reader takes for an entry writes the key
///   `appstate.userconfig.betakey`.
pub open spec fn user_part(c: Seq<char>, u: int, e: int) -> bool {
    let ls = lines(c);
    &&& 0 <= u && u + 1 < e < ls.len()
    &&& forall|i: int| 0 <= i < ls.len() && #[trigger] ls[i].len() > 0 ==> ls[i].last() != '\r'
    &&& no_config_headers(ls.take(u))
    &&& vdf_fold(ls.take(u)).stack == seq!["appstate"@]
    &&& user_header(ls[u])
    &&& brace_line(ls[u + 1], '{')
    &&& forall|i: int| u + 1 < i < e ==> plain_body_line(#[trigger] ls[i])
    &&& brace_line(ls[e], '}')
    &&& forall|j: int|
        e < j < ls.len() ==> (vdf_kind(#[trigger] ls[j]) matches VdfKind::Entry(k, _) ==> vdf_key(
            vdf_fold(ls.take(j)).stack,
            k,
        ) != user_betakey_key())
}

/// A manifest as `user_part` describes it, with no line after the
/// `UserConfig` section naming a config section.
pub open spec fn user_section_at(c: Seq<char>, u: int, e: int) -> bool {
    &&& user_part(c, u, e)
    &&& no_config_headers(lines(c).skip(e + 1))
}

/// The lines the rewriter writes for such a manifest.
pub open spec fn rewritten_lines(c: Seq<char>, u: int, e: int, key: Seq<char>) -> Seq<Seq<char>> {
    let ls = lines(c);
    let body = ls.subrange(u + 2, e);
    ls.take(u) + seq![ls[u], ls[u + 1]] + body_out(body, key) + inserted(body, key) + seq![ls[e]]
        + ls.skip(e + 1)
}

proof fn lemma_split_lines(c: Seq<char>, u: int, e: int)
    requires
        user_part(c, u, e),
    ensures
        lines(c) == lines(c).take(u) + seq![lines(c)[u], lines(c)[u + 1]] + lines(c).subrange(
            u + 2,
            e,
        ) + seq![lines(c)[e]] + lines(c).skip(e + 1),
        forall|i: int|
            0 <= i < lines(c).subrange(u + 2, e).len() ==> plain_body_line(
                #[trigger] lines(c).subrange(u + 2, e)[i],
            ),
        clean_lines(lines(c)),
{
    let ls = lines(c);
    assert(ls =~= ls.take(u) + seq![ls[u], ls[u + 1]] + ls.subrange(u + 2, e) + seq![ls[e]]
        + ls.skip(e + 1));
    assert forall|i: int| 0 <= i < ls.subrange(u + 2, e).len() implies plain_body_line(
        #[trigger] ls.subrange(u + 2, e)[i],
    ) by {
        assert(ls.subrange(u + 2, e)[i] == ls[u + 2 + i]);
    }
    lemma_lines_no_newline(c);
    assert forall|i: int| 0 <= i < ls.len() implies (forall|j: int|
        0 <= j < ls[i].len() ==> #[trigger] ls[i][j] != '\n') && (#[trigger] ls[i].len() > 0
        ==> ls[i].last() != '\r') by {}
}

/// The rewriter writes the lines `rewritten_lines` for such a manifest.
#[verifier::rlimit(100)]
proof fn lemma_acf_manifest(c: Seq<char>, u: int, e: int, key: Seq<char>)
    requires
        user_section_at(c, u, e),
    ensures
        acf_fold(lines(c), key).ok,
        acf_fold(lines(c), key).out == joined_lines(rewritten_lines(c, u, e, key)),
{
    let ls = lines(c);
    lemma_split_lines(c, u, e);
    let p = ls.take(u);
    let body = ls.subrange(u + 2, e);
    let empty = Seq::<Seq<char>>::empty();
    assert(empty + p =~= p);
    assert(acf_fold(empty, key) == crate::steam::acf_start());
    assert(in_i32(0));
    lemma_acf_copy(empty, p, key);
    assert(acf_fold(p, key).out =~= joined_lines(p));
    lemma_acf_user_section(p, ls[u], ls[u + 1], body, ls[e], key);
    let pre2 = p + seq![ls[u], ls[u + 1]] + body + seq![ls[e]];
    lemma_acf_copy(pre2, ls.skip(e + 1), key);
    assert(pre2 + ls.skip(e + 1) == ls);
    let sec = seq![ls[u], ls[u + 1]] + body_out(body, key) + inserted(body, key) + seq![ls[e]];
    lemma_joined_lines_append(p, sec);
    lemma_joined_lines_append(p + sec, ls.skip(e + 1));
    assert(rewritten_lines(c, u, e, key) =~= p + sec + ls.skip(e + 1));
}

proof fn lemma_clean_append(a: Seq<Seq<char>>, b: Seq<Seq<char>>)
    requires
        clean_lines(a),
        clean_lines(b),
    ensures
        clean_lines(a + b),
{
    assert forall|i: int| 0 <= i < (a + b).len() implies (forall|j: int|
        0 <= j < (a + b)[i].len() ==> #[trigger] (a + b)[i][j] != '\n') && (#[trigger] (a + b)[i].len()
        > 0 ==> (a + b)[i].last() != '\r') by {
        if i < a.len() {
            assert((a + b)[i] == a[i]);
        } else {
            assert((a + b)[i] == b[i - a.len()]);
        }
    }
}

proof fn lemma_clean_sub(ls: Seq<Seq<char>>, a: int, b: int)
    requires
        clean_lines(ls),
        0 <= a <= b <= ls.len(),
    ensures
        clean_lines(ls.subrange(a, b)),
{
    assert forall|i: int| 0 <= i < ls.subrange(a, b).len() implies (forall|j: int|
        0 <= j < ls.subrange(a, b)[i].len() ==> #[trigger] ls.subrange(a, b)[i][j] != '\n') && (
    #[trigger] ls.subrange(a, b)[i].len() > 0 ==> ls.subrange(a, b)[i].last() != '\r') by {
        assert(ls.subrange(a, b)[i] == ls[a + i]);
    }
}

/// Reading the rewritten text gives the lines the rewriter wrote.
#[verifier::rlimit(100)]
proof fn lemma_out_lines(c: Seq<char>, u: int, e: int, key: Seq<char>)
    requires
        user_section_at(c, u, e),
        writable_key(key),
    ensures
        acf_rewritable(c, key),
        lines(acf_with_betakey(c, key)) == rewritten_lines(c, u, e, key),
{
    let ls = lines(c);
    lemma_split_lines(c, u, e);
    lemma_acf_manifest(c, u, e, key);
    let body = ls.subrange(u + 2, e);
    lemma_clean_sub(ls, u + 2, e);
    lemma_body_out_reads(body, key);
    let ol = rewritten_lines(c, u, e, key);
    lemma_clean_sub(ls, 0, u);
    lemma_clean_sub(ls, u, u + 2);
    lemma_clean_sub(ls, e, e + 1);
    lemma_clean_sub(ls, e + 1, ls.len() as int);
    assert(ls.subrange(0, u) =~= ls.take(u));
    assert(ls.subrange(u, u + 2) =~= seq![ls[u], ls[u + 1]]);
    assert(ls.subrange(e, e + 1) =~= seq![ls[e]]);
    assert(ls.subrange(e + 1, ls.len() as int) =~= ls.skip(e + 1));
    let bo = body_out(body, key) + inserted(body, key);
    lemma_clean_append(ls.take(u), seq![ls[u], ls[u + 1]]);
    lemma_clean_append(ls.take(u) + seq![ls[u], ls[u + 1]], bo);
    lemma_clean_append(ls.take(u) + seq![ls[u], ls[u + 1]] + bo, seq![ls[e]]);
    lemma_clean_append(ls.take(u) + seq![ls[u], ls[u + 1]] + bo + seq![ls[e]], ls.skip(e + 1));
    assert(ol =~= ls.take(u) + seq![ls[u], ls[u + 1]] + bo + seq![ls[e]] + ls.skip(e + 1));
    assert(clean_lines(ol));
    lemma_lines_of_joined(ol);
    let j = joined_lines(ol);
    // the last line written is not empty
    assert(ol.len() > 0);
    let last = ol.last();
    if e + 1 < ls.len() {
        assert(last == ls.last());
    } else {
        assert(last == ls[e]);
    }
    assert(j == joined_lines(ol.drop_last()) + last + seq!['\n']);
    assert(j.last() == '\n');
    if c.len() > 0 && c.last() == '\n' {
        assert(acf_with_betakey(c, key) == j);
    } else {
        assert(c.len() > 0) by {
            if c.len() == 0 {
                assert(lines(c) =~= Seq::<Seq<char>>::empty());
            }
        }
        assert(last.len() > 0) by {
            if e + 1 < ls.len() {
                crate::text::lemma_lines_last(c);
            } else if last.len() == 0 {
                assert(last =~= Seq::<char>::empty());
                assert(trim(Seq::<char>::empty()) =~= Seq::<char>::empty());
            }
        }
        assert(acf_with_betakey(c, key) == j.drop_last());
        let y = j.drop_last();
        assert(y =~= joined_lines(ol.drop_last()) + last);
        assert(y.last() == last.last());
        assert(ol[ol.len() - 1] == last);
        assert(last[last.len() - 1] != '\n');
        lemma_lines_push_newline(y);
        assert(y.push('\n') =~= j);
    }
}

/// The rewritten lines up to the end of the `UserConfig` section.
pub open spec fn rewritten_user_part(c: Seq<char>, u: int, e: int, key: Seq<char>) -> Seq<
    Seq<char>,
> {
    let ls = lines(c);
    let body = ls.subrange(u + 2, e);
    ls.take(u) + seq![ls[u], ls[u + 1]] + body_out(body, key) + inserted(body, key) + seq![ls[e]]
}

/// Reading the rewritten lines up to the end of the `UserConfig` section
/// gives `key` for the user `betakey`, with `AppState` open, as reading the
/// manifest's own lines there does.
#[verifier::rlimit(100)]
proof fn lemma_parse_user_part(c: Seq<char>, u: int, e: int, key: Seq<char>)
    requires
        user_part(c, u, e),
        writable_key(key),
    ensures
        holds_key(vdf_fold(rewritten_user_part(c, u, e, key)).map, key),
        vdf_fold(rewritten_user_part(c, u, e, key)).stack == seq!["appstate"@],
        vdf_fold(lines(c).take(e + 1)).stack == seq!["appstate"@],
{
    let ls = lines(c);
    lemma_split_lines(c, u, e);
    let body = ls.subrange(u + 2, e);
    lemma_clean_sub(ls, u + 2, e);
    lemma_parse_user_section(ls.take(u), ls.take(u), ls[u], ls[u + 1], body, ls[e], key);
    assert(ls.take(u) + seq![ls[u], ls[u + 1]] + body + seq![ls[e]] =~= ls.take(e + 1));
    assert(ls.take(u) + seq![ls[u], ls[u + 1]] + (body_out(body, key) + inserted(body, key)) + seq![
        ls[e],
    ] =~= rewritten_user_part(c, u, e, key));
}

/// Lines of the manifest itself after the `UserConfig` section, read on after
/// the rewritten part, keep `key` for the user `betakey`.
proof fn lemma_parse_tail_segment(
    c: Seq<char>,
    e: int,
    a: int,
    b: int,
    pre2: Seq<Seq<char>>,
    key: Seq<char>,
)
    requires
        0 <= e < a <= b <= lines(c).len(),
        forall|j: int|
            e < j < lines(c).len() ==> (vdf_kind(#[trigger] lines(c)[j]) matches VdfKind::Entry(
                k,
                _,
            ) ==> vdf_key(vdf_fold(lines(c).take(j)).stack, k) != user_betakey_key()),
        vdf_fold(lines(c).take(a)).stack == vdf_fold(pre2).stack,
        holds_key(vdf_fold(pre2).map, key),
    ensures
        vdf_fold(lines(c).take(b)).stack == vdf_fold(pre2 + lines(c).subrange(a, b)).stack,
        holds_key(vdf_fold(pre2 + lines(c).subrange(a, b)).map, key),
{
    let ls = lines(c);
    let seg = ls.subrange(a, b);
    assert(seg.len() == b - a);
    assert forall|j: int| 0 <= j < seg.len() implies (vdf_kind(#[trigger] seg[j]) matches VdfKind::Entry(
        k,
        _,
    ) ==> vdf_key(vdf_fold(ls.take(a) + seg.take(j)).stack, k) != user_betakey_key()) by {
        assert(seg[j] == ls[a + j]);
        assert(ls.take(a) + seg.take(j) =~= ls.take(a + j));
    }
    lemma_vdf_tail_at(ls.take(a), pre2, seg, user_betakey_key(), key);
    assert(ls.take(a) + seg =~= ls.take(b));
}

/// Reading the rewritten lines gives `key` for the user `betakey`.
proof fn lemma_parse_rewritten(c: Seq<char>, u: int, e: int, key: Seq<char>)
    requires
        user_section_at(c, u, e),
        writable_key(key),
    ensures
        holds_key(vdf_fold(rewritten_lines(c, u, e, key)).map, key),
{
    let ls = lines(c);
    lemma_parse_user_part(c, u, e, key);
    let pre2 = rewritten_user_part(c, u, e, key);
    lemma_parse_tail_segment(c, e, e + 1, ls.len() as int, pre2, key);
    assert(ls.subrange(e + 1, ls.len() as int) =~= ls.skip(e + 1));
    assert(rewritten_lines(c, u, e, key) =~= pre2 + ls.skip(e + 1));
}

/// Setting the `betakey` of a manifest whose `UserConfig` section the law
/// describes (see `user_section_at`) succeeds, and reading the result gives
/// the key written for `appstate.userconfig.betakey`, the entry the branch
/// is read from.
pub proof fn law_betakey_reads_back(c: Seq<char>, key: Seq<char>, u: int, e: int)
    requires
        user_section_at(c, u, e),
        writable_key(key),
    ensures
        acf_rewritable(c, key),
        parse_vdf(acf_with_betakey(c, key)).dom().contains("appstate.userconfig.betakey"@),
        parse_vdf(acf_with_betakey(c, key))["appstate.userconfig.betakey"@] == key,
        manifest_betakey(parse_vdf(acf_with_betakey(c, key))) == key,
{
    lemma_out_lines(c, u, e, key);
    lemma_parse_rewritten(c, u, e, key);
}

/// Switching such a manifest to a branch and reading its branch back gives
/// that branch: the rewrite succeeds, and `detect_branch` of the result
/// returns `Ok(target)`.
pub proof fn law_switch_then_detect(c: Seq<char>, target: Branch, u: int, e: int)
    requires
        user_section_at(c, u, e),
    ensures
        acf_rewritable(c, branch_betakey(target)),
        branch_of(
            lower_text(manifest_betakey(parse_vdf(acf_with_betakey(c, branch_betakey(target))))),
        ) == Some(target),
{
    let key = branch_betakey(target);
    lemma_branch_key_writable(target);
    law_betakey_reads_back(c, key, u, e);
    law_branch_names_denote_branch(target);
}

/// A line of a `MountedConfig` section's body as the law takes it: an entry
/// or a line the reader ignores, naming neither config section.
pub open spec fn section_line(l: Seq<char>) -> bool {
    &&& (vdf_kind(l) is Entry || vdf_kind(l) is Ignored)
    &&& !contains_text(trim(l), "\"UserConfig\""@)
    &&& !contains_text(trim(l), "\"MountedConfig\""@)
}

/// The `MountedConfig` header line.
pub open spec fn mounted_header(l: Seq<char>) -> bool {
    trim(l) == "\"MountedConfig\""@
}

proof fn lemma_mounted_header_text(l: Seq<char>)
    requires
        mounted_header(l),
    ensures
        contains_text(trim(l), "\"MountedConfig\""@),
        !contains_text(trim(l), "\"UserConfig\""@),
        !rewrites(l),
        trim(l) != seq!['{'],
        trim(l) != seq!['}'],
{
    reveal_strlit("\"MountedConfig\"");
    reveal_strlit("\"UserConfig\"");
    reveal_strlit("\"betakey\"");
    let t = trim(l);
    assert(t.len() == 15);
    assert(occurs_at(t, "\"MountedConfig\""@, 0)) by {
        assert(t.subrange(0, 15) =~= t);
    }
    let up = "\"UserConfig\""@;
    assert forall|i: int| !occurs_at(t, up, i) by {
        if 0 <= i && i + 12 <= 15 {
            if i == 0 {
                assert(t.subrange(i, i + 12)[1] != up[1]);
            } else {
                assert(t.subrange(i, i + 12)[0] != up[0]);
            }
        }
    }
    assert(is_ascii_chars(t));
    let lt = ascii_lower(t);
    assert(lt.len() == 15);
    assert(lt[2] == 'o' && lt[3] == 'u' && lt[4] == 'n' && lt[5] == 't' && lt[6] == 'e');
    assert(lt[1] != '"');
    let pat = "\"betakey\""@;
    assert forall|i: int| !occurs_at(lt, pat, i) by {
        if 0 <= i && i + 9 <= 15 {
            if i == 0 {
                assert(lt.subrange(i, i + 9)[2] != pat[2]);
            } else if i <= 6 {
                assert(lt.subrange(i, i + 9)[0] != pat[0]);
            } else {
                assert(lt[7] == 'd' && lt[8] == 'c' && lt[9] == 'o');
                assert(lt.subrange(i, i + 9)[0] != pat[0]);
            }
        }
    }
    assert(t[0] == '"');
}

proof fn lemma_step_mheader(st: AcfState, h: Seq<char>, key: Seq<char>)
    requires
        outside(st),
        mounted_header(h),
    ensures
        acf_step(st, h, key) == (AcfState { in_mounted: true, depth: 0, out: st.out + h + seq!['\n'], ..st }),
{
    lemma_mounted_header_text(h);
    assert(in_i32(0));
}

proof fn lemma_step_mopen(st: AcfState, o: Seq<char>, key: Seq<char>)
    requires
        !st.in_user,
        st.in_mounted,
        st.depth == 0,
        st.ok,
        brace_line(o, '{'),
    ensures
        acf_step(st, o, key) == (AcfState { depth: 1, out: st.out + o + seq!['\n'], ..st }),
{
    lemma_brace_text(o, '{');
    assert(seq!['{'] != seq!['}']) by {
        assert(seq!['}'][0] != seq!['{'][0]);
    }
    assert(in_i32(1));
}

proof fn lemma_step_mclose(st: AcfState, cl: Seq<char>, key: Seq<char>)
    requires
        !st.in_user,
        st.in_mounted,
        st.depth == 1,
        st.ok,
        brace_line(cl, '}'),
    ensures
        acf_step(st, cl, key) == (AcfState {
            in_mounted: false,
            depth: 0,
            out: st.out + (if st.found_mounted {
                Seq::<char>::empty()
            } else {
                betakey_line("\t\t"@, key)
            }) + cl + seq!['\n'],
            ..st
        }),
{
    lemma_brace_text(cl, '}');
    assert(seq!['}'] != seq!['{']) by {
        assert(seq!['}'][0] != seq!['{'][0]);
    }
    assert(in_i32(1) && in_i32(0));
    let nx = acf_step(st, cl, key);
    assert(nx.out =~= st.out + (if st.found_mounted {
        Seq::<char>::empty()
    } else {
        betakey_line("\t\t"@, key)
    }) + cl + seq!['\n']);
}

/// The body of a `MountedConfig` section: each line copied or replaced.
proof fn lemma_acf_mbody(pre: Seq<Seq<char>>, body: Seq<Seq<char>>, key: Seq<char>)
    requires
        !acf_fold(pre, key).in_user,
        acf_fold(pre, key).in_mounted,
        acf_fold(pre, key).depth == 1,
        acf_fold(pre, key).ok,
        forall|i: int| 0 <= i < body.len() ==> section_line(#[trigger] body[i]),
    ensures
        acf_fold(pre + body, key) == (AcfState {
            found_mounted: acf_fold(pre, key).found_mounted || any_rewrites(body),
            out: acf_fold(pre, key).out + joined_lines(body_out(body, key)),
            ..acf_fold(pre, key)
        }),
    decreases body.len(),
{
    let st = acf_fold(pre, key);
    if body.len() == 0 {
        assert(pre + body =~= pre);
        assert(body_out(body, key) =~= Seq::<Seq<char>>::empty());
        assert(st.out + joined_lines(body_out(body, key)) =~= st.out);
    } else {
        let b0 = body.drop_last();
        let l = body.last();
        assert forall|i: int| 0 <= i < b0.len() implies section_line(#[trigger] b0[i]) by {
            assert(b0[i] == body[i]);
        }
        lemma_acf_mbody(pre, b0, key);
        assert((pre + body).drop_last() =~= pre + b0);
        assert((pre + body).last() == l);
        assert(section_line(body[body.len() - 1]));
        let mid = acf_fold(pre + b0, key);
        assert(acf_fold(pre + body, key) == acf_step(mid, l, key));
        assert(trim(l) != seq!['{'] && trim(l) != seq!['}']);
        assert(body_out(body, key).drop_last() =~= body_out(b0, key));
        lemma_written_line(indentation(l), key);
        if any_rewrites(body) && !rewrites(l) {
            let i = choose|i: int| 0 <= i < body.len() && rewrites(#[trigger] body[i]);
            assert(i < b0.len());
            assert(b0[i] == body[i]);
        }
        if any_rewrites(b0) {
            let i = choose|i: int| 0 <= i < b0.len() && rewrites(#[trigger] b0[i]);
            assert(body[i] == b0[i]);
        }
        if rewrites(l) {
            assert(rewrites(body[body.len() - 1]));
        }
        assert(acf_step(mid, l, key).out =~= st.out + joined_lines(body_out(body, key)));
    }
}

/// A `MountedConfig` section whose braces stand on lines of their own.
#[verifier::rlimit(100)]
proof fn lemma_acf_mounted_section(
    pre: Seq<Seq<char>>,
    h: Seq<char>,
    o: Seq<char>,
    body: Seq<Seq<char>>,
    cl: Seq<char>,
    key: Seq<char>,
)
    requires
        outside(acf_fold(pre, key)),
        !acf_fold(pre, key).found_mounted,
        mounted_header(h),
        brace_line(o, '{'),
        forall|i: int| 0 <= i < body.len() ==> section_line(#[trigger] body[i]),
        brace_line(cl, '}'),
    ensures
        acf_fold(pre + seq![h, o] + body + seq![cl], key) == (AcfState {
            found_mounted: any_rewrites(body),
            depth: 0,
            out: acf_fold(pre, key).out + joined_lines(
                seq![h, o] + body_out(body, key) + inserted(body, key) + seq![cl],
            ),
            ..acf_fold(pre, key)
        }),
{
    let st = acf_fold(pre, key);
    let p1 = pre.push(h);
    assert(p1.drop_last() =~= pre);
    lemma_step_mheader(st, h, key);
    let s1 = acf_fold(p1, key);
    let p2 = p1.push(o);
    assert(p2.drop_last() =~= p1);
    lemma_step_mopen(s1, o, key);
    assert(p2 =~= pre + seq![h, o]);
    lemma_acf_mbody(p2, body, key);
    let p3 = p2 + body;
    let s3 = acf_fold(p3, key);
    let p4 = p3.push(cl);
    assert(p4.drop_last() =~= p3);
    assert(p4 =~= pre + seq![h, o] + body + seq![cl]);
    lemma_step_mclose(s3, cl, key);
    lemma_section_text(h, o, body, cl, key);
    assert(acf_fold(p4, key).out =~= st.out + joined_lines(
        seq![h, o] + body_out(body, key) + inserted(body, key) + seq![cl],
    ));
}

/// What the reader finds in the rewritten body of a `MountedConfig` section:
/// each line is the one that stood there or an entry for `betakey` with `key`.
proof fn lemma_mbody_out_reads(body: Seq<Seq<char>>, key: Seq<char>)
    requires
        forall|i: int| 0 <= i < body.len() ==> section_line(#[trigger] body[i]),
        clean_lines(body),
        writable_key(key),
    ensures
        clean_lines(body_out(body, key) + inserted(body, key)),
        forall|i: int|
            0 <= i < (body_out(body, key) + inserted(body, key)).len() ==> (vdf_kind(
                #[trigger] (body_out(body, key) + inserted(body, key))[i],
            ) is Entry || vdf_kind((body_out(body, key) + inserted(body, key))[i]) is Ignored),
        forall|i: int|
            0 <= i < (body_out(body, key) + inserted(body, key)).len() ==> (i < body.len() && (
            #[trigger] (body_out(body, key) + inserted(body, key))[i]) == body[i]) || vdf_kind(
                (body_out(body, key) + inserted(body, key))[i],
            ) == VdfKind::Entry("betakey"@, key),
{
    let bo = body_out(body, key) + inserted(body, key);
    let n = body.len() as int;
    reveal_strlit("\t\t");
    let tabs = "\t\t"@;
    assert forall|i: int| 0 <= i < tabs.len() implies is_white_space(#[trigger] tabs[i])
        && tabs[i] != '\n' by {}
    lemma_written_line_reads(tabs, key);
    assert forall|i: int| 0 <= i < bo.len() implies (forall|j: int|
        0 <= j < bo[i].len() ==> #[trigger] bo[i][j] != '\n') && (#[trigger] bo[i].len() > 0
        ==> bo[i].last() != '\r') && (vdf_kind(bo[i]) is Entry || vdf_kind(bo[i]) is Ignored) && ((
    i < body.len() && bo[i] == body[i]) || vdf_kind(bo[i]) == VdfKind::Entry("betakey"@, key)) by {
        if i < n {
            let l = body[i];
            assert(section_line(l));
            if rewrites(l) {
                assert(bo[i] == written_line(indentation(l), key));
                lemma_indentation(l);
                assert forall|k: int| 0 <= k < indentation(l).len() implies is_white_space(
                    #[trigger] indentation(l)[k],
                ) && indentation(l)[k] != '\n' by {
                    assert(indentation(l)[k] == l[k]);
                    assert(0 <= k < body[i].len());
                    assert(body[i][k] != '\n');
                }
                lemma_written_line_reads(indentation(l), key);
            } else {
                assert(bo[i] == l);
            }
        } else {
            assert(!any_rewrites(body));
            assert(bo[i] == written_line(tabs, key));
        }
    }
    assert(clean_lines(bo));
}

/// Entries and ignored lines that do not write the full key `kx` keep the
/// open sections and the reader's value for it.
proof fn lemma_vdf_keep(pre: Seq<Seq<char>>, ls: Seq<Seq<char>>, kx: Seq<char>, key: Seq<char>)
    requires
        forall|i: int|
            0 <= i < ls.len() ==> (vdf_kind(#[trigger] ls[i]) is Entry || vdf_kind(ls[i]) is Ignored),
        forall|i: int|
            0 <= i < ls.len() ==> (vdf_kind(#[trigger] ls[i]) matches VdfKind::Entry(k, _) ==> vdf_key(
                vdf_fold(pre).stack,
                k,
            ) != kx),
    ensures
        vdf_fold(pre + ls).stack == vdf_fold(pre).stack,
        holds_at(vdf_fold(pre).map, kx, key) ==> holds_at(vdf_fold(pre + ls).map, kx, key),
    decreases ls.len(),
{
    lemma_vdf_flat(pre, ls);
    if ls.len() == 0 {
        assert(pre + ls =~= pre);
    } else {
        let l0 = ls.drop_last();
        assert forall|i: int| 0 <= i < l0.len() implies (vdf_kind(#[trigger] l0[i]) is Entry
            || vdf_kind(l0[i]) is Ignored) by {
            assert(l0[i] == ls[i]);
        }
        assert forall|i: int| 0 <= i < l0.len() implies (vdf_kind(#[trigger] l0[i]) matches VdfKind::Entry(
            k,
            _,
        ) ==> vdf_key(vdf_fold(pre).stack, k) != kx) by {
            assert(l0[i] == ls[i]);
        }
        lemma_vdf_keep(pre, l0, kx, key);
        assert((pre + ls).drop_last() =~= pre + l0);
        assert((pre + ls).last() == ls[ls.len() - 1]);
    }
}

/// Reading the rewritten text gives the lines written, when they are clean
/// and the last is the manifest's last line or a closing brace.
proof fn lemma_output_lines(c: Seq<char>, ol: Seq<Seq<char>>, key: Seq<char>)
    requires
        acf_fold(lines(c), key).out == joined_lines(ol),
        clean_lines(ol),
        ol.len() > 0,
        lines(c).len() > 0,
        ol.last() == lines(c).last() || brace_line(ol.last(), '}'),
    ensures
        lines(acf_with_betakey(c, key)) == ol,
{
    lemma_lines_of_joined(ol);
    let j = joined_lines(ol);
    let last = ol.last();
    assert(j == joined_lines(ol.drop_last()) + last + seq!['\n']);
    assert(j.last() == '\n');
    if c.len() > 0 && c.last() == '\n' {
        assert(acf_with_betakey(c, key) == j);
    } else {
        assert(c.len() > 0) by {
            if c.len() == 0 {
                assert(lines(c) =~= Seq::<Seq<char>>::empty());
            }
        }
        assert(last.len() > 0) by {
            if last == lines(c).last() {
                crate::text::lemma_lines_last(c);
            } else if last.len() == 0 {
                assert(last =~= Seq::<char>::empty());
                assert(trim(Seq::<char>::empty()) =~= Seq::<char>::empty());
            }
        }
        assert(acf_with_betakey(c, key) == j.drop_last());
        let y = j.drop_last();
        assert(y =~= joined_lines(ol.drop_last()) + last);
        assert(y.last() == last.last());
        assert(ol[ol.len() - 1] == last);
        assert(last[last.len() - 1] != '\n');
        lemma_lines_push_newline(y);
        assert(y.push('\n') =~= j);
    }
}

/// A manifest as `user_part` describes it whose `UserConfig` section is
/// followed by a `MountedConfig` section from the header at `m` to the
/// closing brace at `f`:
/// - between the two sections and after the second, no line names a config
///   section;
/// - the header line is `"MountedConfig"`, and the section's braces stand on
///   lines of their own;
/// - the lines between the braces are entries or ignored lines that name no
///   config section;
/// - a `betakey` entry inside the section does not have the full key
///   `appstate.userconfig.betakey` (the section is not nested so that its
///   dotted name reads as that one).
pub open spec fn user_mounted_at(c: Seq<char>, u: int, e: int, m: int, f: int) -> bool {
    let ls = lines(c);
    &&& user_part(c, u, e)
    &&& e < m && m + 1 < f < ls.len()
    &&& no_config_headers(ls.subrange(e + 1, m))
    &&& mounted_header(ls[m])
    &&& brace_line(ls[m + 1], '{')
    &&& forall|i: int| m + 1 < i < f ==> section_line(#[trigger] ls[i])
    &&& brace_line(ls[f], '}')
    &&& no_config_headers(ls.skip(f + 1))
    &&& vdf_key(vdf_fold(ls.take(m + 2)).stack, "betakey"@) != user_betakey_key()
}

/// The lines the rewriter writes for such a manifest.
pub open spec fn rewritten_lines_mounted(
    c: Seq<char>,
    u: int,
    e: int,
    m: int,
    f: int,
    key: Seq<char>,
) -> Seq<Seq<char>> {
    let ls = lines(c);
    let mb = ls.subrange(m + 2, f);
    rewritten_user_part(c, u, e, key) + ls.subrange(e + 1, m) + seq![ls[m], ls[m + 1]] + body_out(
        mb,
        key,
    ) + inserted(mb, key) + seq![ls[f]] + ls.skip(f + 1)
}

/// The rewriter writes `rewritten_lines_mounted` for such a manifest.
#[verifier::rlimit(100)]
proof fn lemma_acf_manifest_mounted(c: Seq<char>, u: int, e: int, m: int, f: int, key: Seq<char>)
    requires
        user_mounted_at(c, u, e, m, f),
    ensures
        acf_fold(lines(c), key).ok,
        acf_fold(lines(c), key).out == joined_lines(rewritten_lines_mounted(c, u, e, m, f, key)),
{
    let ls = lines(c);
    let p = ls.take(u);
    let body = ls.subrange(u + 2, e);
    let mid = ls.subrange(e + 1, m);
    let mb = ls.subrange(m + 2, f);
    let rest = ls.skip(f + 1);
    assert forall|i: int| 0 <= i < mb.len() implies section_line(#[trigger] mb[i]) by {
        assert(mb[i] == ls[m + 2 + i]);
    }
    assert forall|i: int| 0 <= i < body.len() implies plain_body_line(#[trigger] body[i]) by {
        assert(body[i] == ls[u + 2 + i]);
    }
    let empty = Seq::<Seq<char>>::empty();
    assert(empty + p =~= p);
    assert(acf_fold(empty, key) == crate::steam::acf_start());
    assert(in_i32(0));
    lemma_acf_copy(empty, p, key);
    assert(acf_fold(p, key).out =~= joined_lines(p));
    lemma_acf_user_then_copy(p, ls[u], ls[u + 1], body, ls[e], mid, key);
    let pre3 = p + seq![ls[u], ls[u + 1]] + body + seq![ls[e]] + mid;
    lemma_acf_mounted_then_copy(pre3, ls[m], ls[m + 1], mb, ls[f], rest, key);
    lemma_two_blocks(ls, u, e, m, f);
    let sec = seq![ls[u], ls[u + 1]] + body_out(body, key) + inserted(body, key) + seq![ls[e]] + mid;
    let msec = seq![ls[m], ls[m + 1]] + body_out(mb, key) + inserted(mb, key) + seq![ls[f]] + rest;
    lemma_joined_lines_append(p, sec);
    lemma_joined_lines_append(p + sec, msec);
    lemma_m_rewritten_blocks(c, u, e, m, f, key);
}

/// The rewritten lines of such a manifest, cut after each section's
/// following lines.
proof fn lemma_m_rewritten_blocks(c: Seq<char>, u: int, e: int, m: int, f: int, key: Seq<char>)
    requires
        user_mounted_at(c, u, e, m, f),
    ensures
        rewritten_lines_mounted(c, u, e, m, f, key) == lines(c).take(u) + (seq![
            lines(c)[u],
            lines(c)[u + 1],
        ] + body_out(lines(c).subrange(u + 2, e), key) + inserted(lines(c).subrange(u + 2, e), key)
            + seq![lines(c)[e]] + lines(c).subrange(e + 1, m)) + (seq![lines(c)[m], lines(c)[m + 1]]
            + body_out(lines(c).subrange(m + 2, f), key) + inserted(lines(c).subrange(m + 2, f), key)
            + seq![lines(c)[f]] + lines(c).skip(f + 1)),
{
    let ls = lines(c);
    assert(rewritten_lines_mounted(c, u, e, m, f, key) =~= ls.take(u) + (seq![ls[u], ls[u + 1]]
        + body_out(ls.subrange(u + 2, e), key) + inserted(ls.subrange(u + 2, e), key) + seq![ls[e]]
        + ls.subrange(e + 1, m)) + (seq![ls[m], ls[m + 1]] + body_out(ls.subrange(m + 2, f), key)
        + inserted(ls.subrange(m + 2, f), key) + seq![ls[f]] + ls.skip(f + 1)));
}

/// The rewritten `MountedConfig` body, read after lines that leave the same
/// sections open as the manifest's own lines before it, keeps them so and
/// keeps the reader's value for the user `betakey`.
#[verifier::rlimit(100)]
proof fn lemma_mounted_body_keeps(
    c: Seq<char>,
    u: int,
    e: int,
    m: int,
    f: int,
    pre3: Seq<Seq<char>>,
    key: Seq<char>,
)
    requires
        user_mounted_at(c, u, e, m, f),
        writable_key(key),
        vdf_fold(pre3).stack == vdf_fold(lines(c).take(m + 2)).stack,
    ensures
        vdf_fold(pre3 + (body_out(lines(c).subrange(m + 2, f), key) + inserted(
            lines(c).subrange(m + 2, f),
            key,
        ))).stack == vdf_fold(lines(c).take(f)).stack,
        holds_key(vdf_fold(pre3).map, key) ==> holds_key(
            vdf_fold(pre3 + (body_out(lines(c).subrange(m + 2, f), key) + inserted(
                lines(c).subrange(m + 2, f),
                key,
            ))).map,
            key,
        ),
{
    let ls = lines(c);
    lemma_split_lines(c, u, e);
    let mb = ls.subrange(m + 2, f);
    assert forall|i: int| 0 <= i < mb.len() implies section_line(#[trigger] mb[i]) by {
        assert(mb[i] == ls[m + 2 + i]);
    }
    lemma_clean_sub(ls, m + 2, f);
    lemma_mbody_out_reads(mb, key);
    let bo = body_out(mb, key) + inserted(mb, key);
    assert forall|i: int| 0 <= i < bo.len() implies (vdf_kind(#[trigger] bo[i]) matches VdfKind::Entry(
        k,
        _,
    ) ==> vdf_key(vdf_fold(pre3).stack, k) != user_betakey_key()) by {
        if i < mb.len() && bo[i] == mb[i] {
            assert(mb[i] == ls[m + 2 + i]);
            assert forall|t: int| 0 <= t < mb.take(i).len() implies (vdf_kind(
                #[trigger] mb.take(i)[t],
            ) is Entry || vdf_kind(mb.take(i)[t]) is Ignored) by {
                assert(mb.take(i)[t] == mb[t]);
            }
            lemma_vdf_flat(ls.take(m + 2), mb.take(i));
            assert(ls.take(m + 2) + mb.take(i) =~= ls.take(m + 2 + i));
        }
    }
    lemma_vdf_keep(pre3, bo, user_betakey_key(), key);
    assert forall|t: int| 0 <= t < mb.len() implies (vdf_kind(#[trigger] mb[t]) is Entry
        || vdf_kind(mb[t]) is Ignored) by {}
    lemma_vdf_flat(ls.take(m + 2), mb);
    assert(ls.take(m + 2) + mb =~= ls.take(f));
}

/// Reading the rewritten lines of such a manifest gives `key` for the user
/// `betakey`.
#[verifier::rlimit(100)]
proof fn lemma_parse_rewritten_mounted(
    c: Seq<char>,
    u: int,
    e: int,
    m: int,
    f: int,
    key: Seq<char>,
)
    requires
        user_mounted_at(c, u, e, m, f),
        writable_key(key),
    ensures
        holds_key(vdf_fold(rewritten_lines_mounted(c, u, e, m, f, key)).map, key),
{
    let ls = lines(c);
    lemma_split_lines(c, u, e);
    lemma_parse_user_part(c, u, e, key);
    let pre2 = rewritten_user_part(c, u, e, key);
    lemma_parse_tail_segment(c, e, e + 1, m + 2, pre2, key);
    let pre3 = pre2 + ls.subrange(e + 1, m + 2);
    assert(ls.take(e + 1) + ls.subrange(e + 1, m + 2) =~= ls.take(m + 2));
    lemma_mounted_body_keeps(c, u, e, m, f, pre3, key);
    let mb = ls.subrange(m + 2, f);
    let pre4 = pre3 + (body_out(mb, key) + inserted(mb, key));
    lemma_parse_tail_segment(c, e, f, ls.len() as int, pre4, key);
    assert(ls.subrange(f, ls.len() as int) =~= seq![ls[f]] + ls.skip(f + 1));
    assert(ls.subrange(e + 1, m + 2) =~= ls.subrange(e + 1, m) + seq![ls[m], ls[m + 1]]);
    assert(rewritten_lines_mounted(c, u, e, m, f, key) =~= pre4 + ls.subrange(f, ls.len() as int));
}

/// Reading the rewritten text of such a manifest gives the lines written.
#[verifier::rlimit(100)]
proof fn lemma_out_lines_mounted(c: Seq<char>, u: int, e: int, m: int, f: int, key: Seq<char>)
    requires
        user_mounted_at(c, u, e, m, f),
        writable_key(key),
    ensures
        acf_rewritable(c, key),
        lines(acf_with_betakey(c, key)) == rewritten_lines_mounted(c, u, e, m, f, key),
{
    let ls = lines(c);
    lemma_split_lines(c, u, e);
    lemma_acf_manifest_mounted(c, u, e, m, f, key);
    let body = ls.subrange(u + 2, e);
    lemma_clean_sub(ls, u + 2, e);
    lemma_body_out_reads(body, key);
    let mb = ls.subrange(m + 2, f);
    assert forall|i: int| 0 <= i < mb.len() implies section_line(#[trigger] mb[i]) by {
        assert(mb[i] == ls[m + 2 + i]);
    }
    lemma_clean_sub(ls, m + 2, f);
    lemma_mbody_out_reads(mb, key);
    let ol = rewritten_lines_mounted(c, u, e, m, f, key);
    lemma_clean_sub(ls, 0, u);
    lemma_clean_sub(ls, u, u + 2);
    lemma_clean_sub(ls, e, e + 1);
    lemma_clean_sub(ls, e + 1, m);
    lemma_clean_sub(ls, m, m + 2);
    lemma_clean_sub(ls, f, f + 1);
    lemma_clean_sub(ls, f + 1, ls.len() as int);
    assert(ls.subrange(0, u) =~= ls.take(u));
    assert(ls.subrange(u, u + 2) =~= seq![ls[u], ls[u + 1]]);
    assert(ls.subrange(e, e + 1) =~= seq![ls[e]]);
    assert(ls.subrange(m, m + 2) =~= seq![ls[m], ls[m + 1]]);
    assert(ls.subrange(f, f + 1) =~= seq![ls[f]]);
    assert(ls.subrange(f + 1, ls.len() as int) =~= ls.skip(f + 1));
    let bo = body_out(body, key) + inserted(body, key);
    let mbo = body_out(mb, key) + inserted(mb, key);
    let a1 = ls.take(u) + seq![ls[u], ls[u + 1]];
    lemma_clean_append(ls.take(u), seq![ls[u], ls[u + 1]]);
    lemma_clean_append(a1, bo);
    lemma_clean_append(a1 + bo, seq![ls[e]]);
    let a2 = a1 + bo + seq![ls[e]];
    lemma_clean_append(a2, ls.subrange(e + 1, m));
    lemma_clean_append(a2 + ls.subrange(e + 1, m), seq![ls[m], ls[m + 1]]);
    let a3 = a2 + ls.subrange(e + 1, m) + seq![ls[m], ls[m + 1]];
    lemma_clean_append(a3, mbo);
    lemma_clean_append(a3 + mbo, seq![ls[f]]);
    lemma_clean_append(a3 + mbo + seq![ls[f]], ls.skip(f + 1));
    assert(ol =~= a3 + mbo + seq![ls[f]] + ls.skip(f + 1));
    if f + 1 < ls.len() {
        assert(ol.last() == ls.last());
    } else {
        assert(ol.last() == ls[f]);
    }
    lemma_output_lines(c, ol, key);
}

/// Setting the `betakey` of a manifest whose `UserConfig` section is
/// followed by a `MountedConfig` section, as `user_mounted_at` describes it,
/// succeeds, and reading the result gives the key written for
/// `appstate.userconfig.betakey`, the entry the branch is read from.
pub proof fn law_betakey_reads_back_mounted(
    c: Seq<char>,
    key: Seq<char>,
    u: int,
    e: int,
    m: int,
    f: int,
)
    requires
        user_mounted_at(c, u, e, m, f),
        writable_key(key),
    ensures
        acf_rewritable(c, key),
        parse_vdf(acf_with_betakey(c, key)).dom().contains("appstate.userconfig.betakey"@),
        parse_vdf(acf_with_betakey(c, key))["appstate.userconfig.betakey"@] == key,
        manifest_betakey(parse_vdf(acf_with_betakey(c, key))) == key,
{
    lemma_out_lines_mounted(c, u, e, m, f, key);
    lemma_parse_rewritten_mounted(c, u, e, m, f, key);
}

/// Switching a manifest with a `UserConfig` and a `MountedConfig` section, as
/// `user_mounted_at` describes it, to a branch and reading its branch back
/// gives that branch: the rewrite succeeds, and `detect_branch` of the result
/// returns `Ok(target)`.
pub proof fn law_switch_then_detect_mounted(
    c: Seq<char>,
    target: Branch,
    u: int,
    e: int,
    m: int,
    f: int,
)
    requires
        user_mounted_at(c, u, e, m, f),
    ensures
        acf_rewritable(c, branch_betakey(target)),
        branch_of(
            lower_text(manifest_betakey(parse_vdf(acf_with_betakey(c, branch_betakey(target))))),
        ) == Some(target),
{
    lemma_branch_key_writable(target);
    law_betakey_reads_back_mounted(c, branch_betakey(target), u, e, m, f);
    law_branch_names_denote_branch(target);
}

proof fn lemma_branch_key_writable(target: Branch)
    ensures
        writable_key(branch_betakey(target)),
{
    reveal_strlit("experimental");
    let key = branch_betakey(target);
    if target == Branch::Experimental {
        assert(key =~= seq!['e', 'x', 'p', 'e', 'r', 'i', 'm', 'e', 'n', 't', 'a', 'l']);
    }
}

/// `s` holds neither a tab nor a newline.
pub open spec fn one_field(s: Seq<char>) -> bool {
    forall|i: int| 0 <= i < s.len() ==> #[trigger] s[i] != '\t' && s[i] != '\n'
}

proof fn lemma_trim_one_field(s: Seq<char>, p: spec_fn(char) -> bool)
    requires
        one_field(s),
    ensures
        one_field(trim_start_by(s, p)),
        one_field(trim_end_by(s, p)),
        one_field(trim_end_by(trim_start_by(s, p), p)),
    decreases s.len(),
{
    if s.len() > 0 {
        assert(one_field(s.drop_first())) by {
            assert forall|i: int| 0 <= i < s.drop_first().len() implies #[trigger] s.drop_first()[i]
                != '\t' && s.drop_first()[i] != '\n' by {
                assert(s.drop_first()[i] == s[i + 1]);
            }
        }
        assert(one_field(s.drop_last())) by {
            assert forall|i: int| 0 <= i < s.drop_last().len() implies #[trigger] s.drop_last()[i]
                != '\t' && s.drop_last()[i] != '\n' by {
                assert(s.drop_last()[i] == s[i]);
            }
        }
        lemma_trim_one_field(s.drop_first(), p);
        lemma_trim_one_field(s.drop_last(), p);
    }
    lemma_trim_start_drops(s, p);
    let t = trim_start_by(s, p);
    assert(one_field(t)) by {
        assert forall|i: int| 0 <= i < t.len() implies #[trigger] t[i] != '\t' && t[i] != '\n' by {
            assert(t[i] == s[s.len() - t.len() + i]);
        }
    }
    if t.len() > 0 {
        assert(one_field(t.drop_first())) by {
            assert forall|i: int| 0 <= i < t.drop_first().len() implies #[trigger] t.drop_first()[i]
                != '\t' && t.drop_first()[i] != '\n' by {
                assert(t.drop_first()[i] == t[i + 1]);
            }
        }
    }
    lemma_trim_end_one_field(t, p);
}

proof fn lemma_trim_end_one_field(s: Seq<char>, p: spec_fn(char) -> bool)
    requires
        one_field(s),
    ensures
        one_field(trim_end_by(s, p)),
    decreases s.len(),
{
    if s.len() > 0 && p(s.last()) {
        assert(one_field(s.drop_last())) by {
            assert forall|i: int| 0 <= i < s.drop_last().len() implies #[trigger] s.drop_last()[i]
                != '\t' && s.drop_last()[i] != '\n' by {
                assert(s.drop_last()[i] == s[i]);
            }
        }
        lemma_trim_end_one_field(s.drop_last(), p);
    }
}

/// The pieces of a text without newlines, split at tabs, are single fields.
proof fn lemma_split_fields(s: Seq<char>)
    requires
        forall|i: int| 0 <= i < s.len() ==> #[trigger] s[i] != '\n',
    ensures
        forall|i: int| 0 <= i < split_char(s, '\t').len() ==> one_field(#[trigger] split_char(s, '\t')[i]),
    decreases s.len(),
{
    crate::text::lemma_first_of_props(s, '\t');
    let k = crate::text::first_of(s, '\t');
    if k < s.len() {
        let rest = s.skip(k + 1int);
        assert forall|i: int| 0 <= i < rest.len() implies #[trigger] rest[i] != '\n' by {
            assert(rest[i] == s[k + 1 + i]);
        }
        lemma_split_fields(rest);
        let head = s.take(k as int);
        assert(one_field(head));
        let sp = split_char(s, '\t');
        assert(sp == seq![head] + split_char(rest, '\t'));
        assert forall|i: int| 0 <= i < sp.len() implies one_field(#[trigger] sp[i]) by {
            if i > 0 {
                assert(sp[i] == split_char(rest, '\t')[i - 1]);
            }
        }
    } else {
        assert(one_field(s));
        assert(split_char(s, '\t') == seq![s]);
    }
}

proof fn lemma_keep_nonempty_fields(s: Seq<Seq<char>>)
    requires
        forall|i: int| 0 <= i < s.len() ==> one_field(#[trigger] s[i]),
    ensures
        forall|i: int| 0 <= i < keep_nonempty(s).len() ==> one_field(#[trigger] keep_nonempty(s)[i]),
    decreases s.len(),
{
    if s.len() > 0 {
        let s0 = s.drop_last();
        assert forall|i: int| 0 <= i < s0.len() implies one_field(#[trigger] s0[i]) by {
            assert(s0[i] == s[i]);
        }
        lemma_keep_nonempty_fields(s0);
        assert(one_field(s[s.len() - 1]));
        let k = keep_nonempty(s);
        assert forall|i: int| 0 <= i < k.len() implies one_field(#[trigger] k[i]) by {
            if i < keep_nonempty(s0).len() {
                assert(k[i] == keep_nonempty(s0)[i]);
            }
        }
    }
}

/// The tokens of a line without newlines are single fields.
proof fn lemma_token_fields(l: Seq<char>)
    requires
        forall|i: int| 0 <= i < l.len() ==> #[trigger] l[i] != '\n',
    ensures
        forall|i: int| 0 <= i < vdf_tokens(l).len() ==> one_field(#[trigger] vdf_tokens(l)[i]),
{
    let ws = strip_pred(false);
    let q = strip_pred(true);
    lemma_trim_start_drops(l, ws);
    let t0 = trim_start_by(l, ws);
    assert forall|i: int| 0 <= i < t0.len() implies #[trigger] t0[i] != '\n' by {
        assert(t0[i] == l[l.len() - t0.len() + i]);
    }
    let t = trim(l);
    lemma_trim_end_nl(t0, ws);
    lemma_split_fields(t);
    let sp = split_char(t, '\t');
    let tr = sp.map_values(|p: Seq<char>| trim(p));
    assert forall|i: int| 0 <= i < tr.len() implies one_field(#[trigger] tr[i]) by {
        assert(one_field(sp[i]));
        lemma_trim_one_field(sp[i], ws);
    }
    lemma_keep_nonempty_fields(tr);
    let f = vdf_fields(l);
    assert forall|i: int| 0 <= i < vdf_tokens(l).len() implies one_field(#[trigger] vdf_tokens(l)[i]) by {
        assert(one_field(f[i]));
        lemma_trim_one_field(f[i], q);
        assert(vdf_tokens(l)[i] == trim_quotes(f[i]));
    }
}

proof fn lemma_trim_end_nl(s: Seq<char>, p: spec_fn(char) -> bool)
    requires
        forall|i: int| 0 <= i < s.len() ==> #[trigger] s[i] != '\n',
    ensures
        forall|i: int| 0 <= i < trim_end_by(s, p).len() ==> #[trigger] trim_end_by(s, p)[i] != '\n',
    decreases s.len(),
{
    if s.len() > 0 && p(s.last()) {
        assert forall|i: int| 0 <= i < s.drop_last().len() implies #[trigger] s.drop_last()[i] != '\n' by {
            assert(s.drop_last()[i] == s[i]);
        }
        lemma_trim_end_nl(s.drop_last(), p);
        assert(trim_end_by(s, p) == trim_end_by(s.drop_last(), p));
    } else {
        assert(trim_end_by(s, p) == s);
    }
}

/// Every value read from lines without newlines is a single field.
proof fn lemma_fold_values(ls: Seq<Seq<char>>)
    requires
        forall|i: int, j: int|
            0 <= i < ls.len() && 0 <= j < ls[i].len() ==> #[trigger] ls[i][j] != '\n',
    ensures
        forall|k: Seq<char>| #[trigger] vdf_fold(ls).map.dom().contains(k) ==> one_field(vdf_fold(ls).map[k]),
    decreases ls.len(),
{
    if ls.len() > 0 {
        let l0 = ls.drop_last();
        assert forall|i: int, j: int| 0 <= i < l0.len() && 0 <= j < l0[i].len() implies #[trigger] l0[i][j]
            != '\n' by {
            assert(l0[i] == ls[i]);
        }
        lemma_fold_values(l0);
        let l = ls.last();
        assert forall|j: int| 0 <= j < l.len() implies #[trigger] l[j] != '\n' by {
            assert(ls[ls.len() - 1][j] != '\n');
        }
        lemma_token_fields(l);
        let st = vdf_fold(l0);
        assert(vdf_fold(ls) == vdf_apply(st, vdf_kind(l)));
        match vdf_kind(l) {
            VdfKind::Entry(key, v) => {
                assert(v == vdf_tokens(l)[1]);
                assert(one_field(v));
                let m = st.map.insert(vdf_key(st.stack, key), v);
                assert(vdf_fold(ls).map == m);
                assert forall|k: Seq<char>| #[trigger] m.dom().contains(k) implies one_field(m[k]) by {
                    if k != vdf_key(st.stack, key) {
                        assert(st.map.dom().contains(k));
                    }
                }
            },
            _ => {},
        }
    }
}

/// No value the VDF reader returns holds a tab or a newline.
pub proof fn law_vdf_values_are_fields(content: Seq<char>)
    ensures
        forall|k: Seq<char>| #[trigger] parse_vdf(content).dom().contains(k) ==> one_field(parse_vdf(content)[k]),
{
    lemma_lines_no_newline(content);
    lemma_fold_values(lines(content));
}

/// Setting the `betakey` of a manifest as `user_section_at` describes it,
/// where every line the rewriter replaces is an entry for `betakey`, leaves
/// every other key the reader finds, and its value, as it was.
pub proof fn law_betakey_keeps_other_keys(c: Seq<char>, key: Seq<char>, u: int, e: int)
    requires
        user_section_at(c, u, e),
        writable_key(key),
        forall|i: int| u + 1 < i < e && rewrites(#[trigger] lines(c)[i]) ==> betakey_entry(lines(c)[i]),
    ensures
        forall|k: Seq<char>|
            k != "appstate.userconfig.betakey"@ ==> (#[trigger] parse_vdf(
                acf_with_betakey(c, key),
            ).dom().contains(k) <==> parse_vdf(c).dom().contains(k)) && (parse_vdf(c).dom().contains(
                k,
            ) ==> parse_vdf(acf_with_betakey(c, key))[k] == parse_vdf(c)[k]),
{
    let ls = lines(c);
    let x = user_betakey_key();
    lemma_split_lines(c, u, e);
    lemma_out_lines(c, u, e, key);
    lemma_lines_no_newline(c);
    let p = ls.take(u);
    let h = ls[u];
    let o = ls[u + 1];
    let body = ls.subrange(u + 2, e);
    lemma_user_header_kind(h);
    let pre_h = p.push(h);
    assert(pre_h.drop_last() =~= p);
    assert(vdf_fold(pre_h).stack =~= user_stack());
    let pre_o = pre_h.push(o);
    assert(pre_o.drop_last() =~= pre_h);
    assert(vdf_kind(o) == VdfKind::Open);
    assert(vdf_fold(pre_o).stack =~= user_stack());
    lemma_user_key("betakey"@);
    assert(agree_except(vdf_fold(pre_o).map, vdf_fold(pre_o).map, x, x));
    assert forall|i: int| 0 <= i < body.len() && rewrites(#[trigger] body[i]) implies betakey_entry(
        body[i],
    ) by {
        assert(body[i] == ls[u + 2 + i]);
    }
    assert forall|i: int, j: int| 0 <= i < body.len() && 0 <= j < body[i].len() implies #[trigger] body[i][j]
        != '\n' by {
        assert(body[i] == ls[u + 2 + i]);
    }
    lemma_vdf_body_agree_except(pre_o, pre_o, body, key, x, x);
    let r1 = pre_o + body_out(body, key);
    lemma_inserted_agree(pre_o + body, r1, body, key, x, x);
    let r2 = r1 + inserted(body, key);
    let rest = ls.subrange(e, ls.len() as int);
    lemma_vdf_same_lines_except(pre_o + body, r2, rest, x, x);
    assert(pre_o + body + rest =~= ls);
    assert(rest =~= seq![ls[e]] + ls.skip(e + 1));
    assert(r2 + rest =~= rewritten_lines(c, u, e, key));
    reveal_strlit("appstate.userconfig.betakey");
}

/// `m` gives `key` for the full key `kx`.
pub open spec fn holds_at(m: Map<Seq<char>, Seq<char>>, kx: Seq<char>, key: Seq<char>) -> bool {
    m.dom().contains(kx) && m[kx] == key
}

/// Within the same open sections, different keys give different full keys.
proof fn lemma_vdf_key_inj(s: Seq<Seq<char>>, k1: Seq<char>, k2: Seq<char>)
    ensures
        vdf_key(s, k1) == vdf_key(s, k2) ==> k1 == k2,
{
    if s.len() > 0 && vdf_key(s, k1) == vdf_key(s, k2) {
        let p = join(s, seq!['.']) + seq!['.'];
        assert(vdf_key(s, k1) =~= p + k1);
        assert(vdf_key(s, k2) =~= p + k2);
        assert((p + k1).skip(p.len() as int) =~= k1);
        assert((p + k2).skip(p.len() as int) =~= k2);
    }
}

/// Inside a section, entries whose key is `betakey` all give `key`: after one
/// of them the reader holds `key` for the section's `betakey`.
proof fn lemma_vdf_section_body(pre: Seq<Seq<char>>, ls: Seq<Seq<char>>, key: Seq<char>)
    requires
        forall|i: int|
            0 <= i < ls.len() ==> (vdf_kind(#[trigger] ls[i]) is Entry || vdf_kind(ls[i]) is Ignored),
        forall|i: int|
            0 <= i < ls.len() && #[trigger] betakey_entry(ls[i]) ==> vdf_kind(ls[i])->Entry_1 == key,
    ensures
        vdf_fold(pre + ls).stack == vdf_fold(pre).stack,
        holds_at(vdf_fold(pre).map, vdf_key(vdf_fold(pre).stack, "betakey"@), key) || (exists|i: int|
            0 <= i < ls.len() && #[trigger] betakey_entry(ls[i])) ==> holds_at(
            vdf_fold(pre + ls).map,
            vdf_key(vdf_fold(pre).stack, "betakey"@),
            key,
        ),
    decreases ls.len(),
{
    lemma_vdf_flat(pre, ls);
    let kx = vdf_key(vdf_fold(pre).stack, "betakey"@);
    if ls.len() == 0 {
        assert(pre + ls =~= pre);
    } else {
        let l0 = ls.drop_last();
        let l = ls[ls.len() - 1];
        assert forall|i: int| 0 <= i < l0.len() implies (vdf_kind(#[trigger] l0[i]) is Entry
            || vdf_kind(l0[i]) is Ignored) by {
            assert(l0[i] == ls[i]);
        }
        assert forall|i: int| 0 <= i < l0.len() && #[trigger] betakey_entry(l0[i]) implies vdf_kind(
            l0[i],
        )->Entry_1 == key by {
            assert(l0[i] == ls[i]);
        }
        lemma_vdf_section_body(pre, l0, key);
        lemma_vdf_flat(pre, l0);
        assert((pre + ls).drop_last() =~= pre + l0);
        assert((pre + ls).last() == l);
        let st = vdf_fold(pre + l0);
        assert(vdf_fold(pre + ls) == vdf_apply(st, vdf_kind(l)));
        let before = holds_at(vdf_fold(pre).map, kx, key) || (exists|i: int|
            0 <= i < l0.len() && #[trigger] betakey_entry(l0[i]));
        if exists|i: int| 0 <= i < ls.len() && #[trigger] betakey_entry(ls[i]) {
            let i = choose|i: int| 0 <= i < ls.len() && #[trigger] betakey_entry(ls[i]);
            if i < l0.len() {
                assert(betakey_entry(l0[i]));
                assert(before);
            } else {
                assert(betakey_entry(l));
            }
        }
        assert(betakey_entry(ls[ls.len() - 1]) ==> vdf_kind(l)->Entry_1 == key);
        match vdf_kind(l) {
            VdfKind::Entry(k, v) => {
                lemma_vdf_key_inj(st.stack, k, "betakey"@);
                if k == "betakey"@ {
                    assert(betakey_entry(l));
                    assert(vdf_fold(pre + ls).map == st.map.insert(kx, v));
                } else {
                    assert(vdf_fold(pre + ls).map == st.map.insert(vdf_key(st.stack, k), v));
                }
            },
            _ => {},
        }
    }
}

/// The same lines read after two beginnings with the same open sections keep
/// them the same; when none of these lines writes the full key `kx` after
/// the first beginning, the second keeps its value for it.
proof fn lemma_vdf_tail_at(
    pre1: Seq<Seq<char>>,
    pre2: Seq<Seq<char>>,
    ls: Seq<Seq<char>>,
    kx: Seq<char>,
    key: Seq<char>,
)
    requires
        vdf_fold(pre1).stack == vdf_fold(pre2).stack,
        forall|j: int|
            0 <= j < ls.len() ==> (vdf_kind(#[trigger] ls[j]) matches VdfKind::Entry(k, _) ==> vdf_key(
                vdf_fold(pre1 + ls.take(j)).stack,
                k,
            ) != kx),
    ensures
        vdf_fold(pre1 + ls).stack == vdf_fold(pre2 + ls).stack,
        holds_at(vdf_fold(pre2).map, kx, key) ==> holds_at(vdf_fold(pre2 + ls).map, kx, key),
    decreases ls.len(),
{
    if ls.len() == 0 {
        assert(pre1 + ls =~= pre1);
        assert(pre2 + ls =~= pre2);
    } else {
        let l0 = ls.drop_last();
        let n = ls.len() - 1;
        assert forall|j: int| 0 <= j < l0.len() implies (vdf_kind(#[trigger] l0[j]) matches VdfKind::Entry(
            k,
            _,
        ) ==> vdf_key(vdf_fold(pre1 + l0.take(j)).stack, k) != kx) by {
            assert(l0[j] == ls[j]);
            assert(l0.take(j) =~= ls.take(j));
        }
        lemma_vdf_tail_at(pre1, pre2, l0, kx, key);
        assert((pre1 + ls).drop_last() =~= pre1 + l0);
        assert((pre2 + ls).drop_last() =~= pre2 + l0);
        assert((pre1 + ls).last() == ls[n]);
        assert((pre2 + ls).last() == ls[n]);
        assert(ls.take(n) =~= l0);
    }
}

/// `m1` and `m2` have the same keys, with the same values, apart from `x`
/// and `y`.
pub open spec fn agree_except(
    m1: Map<Seq<char>, Seq<char>>,
    m2: Map<Seq<char>, Seq<char>>,
    x: Seq<char>,
    y: Seq<char>,
) -> bool {
    forall|k: Seq<char>|
        k != x && k != y ==> (#[trigger] m1.dom().contains(k) <==> m2.dom().contains(k)) && (
        m1.dom().contains(k) ==> m1[k] == m2[k])
}

proof fn lemma_agree_except_insert(
    m1: Map<Seq<char>, Seq<char>>,
    m2: Map<Seq<char>, Seq<char>>,
    x: Seq<char>,
    y: Seq<char>,
    k: Seq<char>,
    v1: Seq<char>,
    v2: Seq<char>,
)
    requires
        agree_except(m1, m2, x, y),
        k == x || k == y || v1 == v2,
    ensures
        agree_except(m1.insert(k, v1), m2.insert(k, v2), x, y),
        agree_except(m1, m2.insert(k, v2), x, y) || !(k == x || k == y),
{
    assert forall|j: Seq<char>| j != x && j != y implies (#[trigger] m1.insert(k, v1).dom().contains(
        j,
    ) <==> m2.insert(k, v2).dom().contains(j)) && (m1.insert(k, v1).dom().contains(j) ==> m1.insert(
        k,
        v1,
    )[j] == m2.insert(k, v2)[j]) by {
        if j != k {
            assert(m1.dom().contains(j) <==> m2.dom().contains(j));
        }
    }
    if k == x || k == y {
        assert forall|j: Seq<char>| j != x && j != y implies (#[trigger] m1.dom().contains(j)
            <==> m2.insert(k, v2).dom().contains(j)) && (m1.dom().contains(j) ==> m1[j] == m2.insert(
            k,
            v2,
        )[j]) by {
            assert(m1.dom().contains(j) <==> m2.dom().contains(j));
        }
    }
}

/// The same lines read after two beginnings with the same open sections and
/// maps that agree apart from `x` and `y` keep both so.
proof fn lemma_vdf_same_lines_except(
    pre1: Seq<Seq<char>>,
    pre2: Seq<Seq<char>>,
    ls: Seq<Seq<char>>,
    x: Seq<char>,
    y: Seq<char>,
)
    requires
        vdf_fold(pre1).stack == vdf_fold(pre2).stack,
        agree_except(vdf_fold(pre1).map, vdf_fold(pre2).map, x, y),
    ensures
        vdf_fold(pre1 + ls).stack == vdf_fold(pre2 + ls).stack,
        agree_except(vdf_fold(pre1 + ls).map, vdf_fold(pre2 + ls).map, x, y),
    decreases ls.len(),
{
    if ls.len() == 0 {
        assert(pre1 + ls =~= pre1);
        assert(pre2 + ls =~= pre2);
    } else {
        let l0 = ls.drop_last();
        lemma_vdf_same_lines_except(pre1, pre2, l0, x, y);
        assert((pre1 + ls).drop_last() =~= pre1 + l0);
        assert((pre2 + ls).drop_last() =~= pre2 + l0);
        assert((pre1 + ls).last() == ls.last());
        assert((pre2 + ls).last() == ls.last());
        let s1 = vdf_fold(pre1 + l0);
        let s2 = vdf_fold(pre2 + l0);
        if let VdfKind::Entry(k, v) = vdf_kind(ls.last()) {
            lemma_agree_except_insert(s1.map, s2.map, x, y, vdf_key(s1.stack, k), v, v);
        }
    }
}

/// A config section's body whose replaced lines are all entries for
/// `betakey`, read as it was and as rewritten from the same open sections,
/// whose `betakey` is `x` or `y`: only `x` and `y` can differ.
proof fn lemma_vdf_body_agree_except(
    pre1: Seq<Seq<char>>,
    pre2: Seq<Seq<char>>,
    body: Seq<Seq<char>>,
    key: Seq<char>,
    x: Seq<char>,
    y: Seq<char>,
)
    requires
        vdf_fold(pre1).stack == vdf_fold(pre2).stack,
        vdf_key(vdf_fold(pre1).stack, "betakey"@) == x || vdf_key(vdf_fold(pre1).stack, "betakey"@)
            == y,
        agree_except(vdf_fold(pre1).map, vdf_fold(pre2).map, x, y),
        forall|i: int| 0 <= i < body.len() ==> plain_body_line(#[trigger] body[i]),
        forall|i: int| 0 <= i < body.len() && rewrites(#[trigger] body[i]) ==> betakey_entry(body[i]),
        forall|i: int, j: int|
            0 <= i < body.len() && 0 <= j < body[i].len() ==> #[trigger] body[i][j] != '\n',
        writable_key(key),
    ensures
        vdf_fold(pre1 + body).stack == vdf_fold(pre1).stack,
        vdf_fold(pre2 + body_out(body, key)).stack == vdf_fold(pre1).stack,
        agree_except(vdf_fold(pre1 + body).map, vdf_fold(pre2 + body_out(body, key)).map, x, y),
    decreases body.len(),
{
    let bo = body_out(body, key);
    let st = vdf_fold(pre1).stack;
    if body.len() == 0 {
        assert(pre1 + body =~= pre1);
        assert(pre2 + bo =~= pre2);
    } else {
        let b0 = body.drop_last();
        let l = body[body.len() - 1];
        assert forall|i: int| 0 <= i < b0.len() implies plain_body_line(#[trigger] b0[i]) by {
            assert(b0[i] == body[i]);
        }
        assert forall|i: int| 0 <= i < b0.len() && rewrites(#[trigger] b0[i]) implies betakey_entry(
            b0[i],
        ) by {
            assert(b0[i] == body[i]);
        }
        assert forall|i: int, j: int| 0 <= i < b0.len() && 0 <= j < b0[i].len() implies #[trigger] b0[i][j]
            != '\n' by {
            assert(b0[i] == body[i]);
        }
        lemma_vdf_body_agree_except(pre1, pre2, b0, key, x, y);
        assert(bo.drop_last() =~= body_out(b0, key));
        assert((pre1 + body).drop_last() =~= pre1 + b0);
        assert((pre2 + bo).drop_last() =~= pre2 + body_out(b0, key));
        assert((pre1 + body).last() == l);
        assert((pre2 + bo).last() == bo[bo.len() - 1]);
        let s1 = vdf_fold(pre1 + b0);
        let s2 = vdf_fold(pre2 + body_out(b0, key));
        assert(plain_body_line(l));
        if rewrites(l) {
            assert(betakey_entry(l));
            assert(bo[bo.len() - 1] == written_line(indentation(l), key));
            lemma_indentation(l);
            assert forall|k: int| 0 <= k < indentation(l).len() implies is_white_space(
                #[trigger] indentation(l)[k],
            ) && indentation(l)[k] != '\n' by {
                assert(indentation(l)[k] == l[k]);
                assert(body[body.len() - 1][k] != '\n');
            }
            lemma_written_line_reads(indentation(l), key);
            let v1 = vdf_kind(l)->Entry_1;
            lemma_agree_except_insert(s1.map, s2.map, x, y, vdf_key(st, "betakey"@), v1, key);
        } else {
            assert(bo[bo.len() - 1] == l);
            if let VdfKind::Entry(k, v) = vdf_kind(l) {
                lemma_agree_except_insert(s1.map, s2.map, x, y, vdf_key(st, k), v, v);
            }
        }
    }
}

proof fn lemma_mounted_text_trim()
    ensures
        trim("\"MountedConfig\""@) == "\"MountedConfig\""@,
        split_char("\"MountedConfig\""@, '\t') == seq!["\"MountedConfig\""@],
{
    reveal_strlit("\"MountedConfig\"");
    let t = "\"MountedConfig\""@;
    let ws = strip_pred(false);
    assert(t.len() == 15);
    assert forall|i: int| 0 <= i < t.len() implies t[i] != '\t' by {}
    lemma_first_of(t, '\t', t.len() as int);
    assert(trim_start_by(t, ws) == t);
    assert(trim_end_by(t, ws) == t);
}

proof fn lemma_mounted_text_quotes()
    ensures
        trim_quotes("\"MountedConfig\""@) == "MountedConfig"@,
        lower_text("MountedConfig"@) == "mountedconfig"@,
{
    reveal_strlit("\"MountedConfig\"");
    reveal_strlit("MountedConfig");
    reveal_strlit("mountedconfig");
    let t = "\"MountedConfig\""@;
    let q = strip_pred(true);
    let mid = "MountedConfig"@;
    assert(t.drop_first() =~= mid + seq!['"']);
    assert(trim_start_by(t, q) == trim_start_by(t.drop_first(), q));
    assert(trim_start_by(mid + seq!['"'], q) == mid + seq!['"']);
    assert((mid + seq!['"']).drop_last() =~= mid);
    assert(trim_end_by(mid + seq!['"'], q) == trim_end_by(mid, q));
    assert(trim_end_by(mid, q) == mid);
    assert(is_ascii_chars(mid));
    assert(ascii_lower(mid) =~= "mountedconfig"@);
}

/// The reader takes the `MountedConfig` header for the section `mountedconfig`.
#[verifier::rlimit(100)]
proof fn lemma_mounted_header_kind(h: Seq<char>)
    requires
        mounted_header(h),
    ensures
        vdf_kind(h) == VdfKind::Section("mountedconfig"@),
{
    lemma_mounted_text_trim();
    lemma_mounted_text_quotes();
    reveal_strlit("\"MountedConfig\"");
    let t = trim(h);
    assert(t.len() == 15);
    assert(t != seq!['{'] && t != seq!['}']);
    lemma_single_field(t);
    let f = vdf_fields(h);
    assert(f == seq![t]);
    let toks = f.map_values(|p: Seq<char>| trim_quotes(p));
    assert(toks =~= seq!["MountedConfig"@]);
    assert(vdf_tokens(h) == toks);
}

/// The full key of the mounted `betakey`.
pub open spec fn mounted_betakey_key() -> Seq<char> {
    "appstate.mountedconfig.betakey"@
}

proof fn lemma_mounted_key()
    ensures
        vdf_key(seq!["appstate"@, "mountedconfig"@], "betakey"@) == mounted_betakey_key(),
        mounted_betakey_key() != user_betakey_key(),
{
    reveal_strlit("appstate");
    reveal_strlit("mountedconfig");
    reveal_strlit("betakey");
    reveal_strlit("appstate.mountedconfig.betakey");
    reveal_strlit("appstate.userconfig.betakey");
    let st = seq!["appstate"@, "mountedconfig"@];
    assert(st.drop_last() =~= seq!["appstate"@]);
    assert(join(st.drop_last(), seq!['.']) == "appstate"@);
    assert(vdf_key(st, "betakey"@) =~= mounted_betakey_key());
    assert(mounted_betakey_key()[9] != user_betakey_key()[9]);
}

/// A manifest as `user_mounted_at` describes it where, moreover, the
/// `MountedConfig` header stands directly in `AppState`, the lines of its
/// body are as `plain_body_line` asks, every line the rewriter replaces in
/// either section is an entry for `betakey`, and no line after the
/// `MountedConfig` section writes the key `appstate.mountedconfig.betakey`.
pub open spec fn two_sections_at(c: Seq<char>, u: int, e: int, m: int, f: int) -> bool {
    let ls = lines(c);
    &&& user_mounted_at(c, u, e, m, f)
    &&& vdf_fold(ls.take(m)).stack == seq!["appstate"@]
    &&& forall|i: int| m + 1 < i < f ==> plain_body_line(#[trigger] ls[i])
    &&& forall|i: int|
        (u + 1 < i < e || m + 1 < i < f) && rewrites(#[trigger] ls[i]) ==> betakey_entry(ls[i])
    &&& forall|j: int|
        f < j < ls.len() ==> (vdf_kind(#[trigger] ls[j]) matches VdfKind::Entry(k, _) ==> vdf_key(
            vdf_fold(ls.take(j)).stack,
            k,
        ) != mounted_betakey_key())
}

/// Inside the `MountedConfig` section the reader has `AppState` and
/// `MountedConfig` open.
proof fn lemma_mounted_stack(c: Seq<char>, u: int, e: int, m: int, f: int)
    requires
        two_sections_at(c, u, e, m, f),
    ensures
        vdf_fold(lines(c).take(m + 2)).stack == seq!["appstate"@, "mountedconfig"@],
        vdf_fold(lines(c).take(f)).stack == seq!["appstate"@, "mountedconfig"@],
        vdf_key(vdf_fold(lines(c).take(m + 2)).stack, "betakey"@) == mounted_betakey_key(),
        mounted_betakey_key() != user_betakey_key(),
{
    let ls = lines(c);
    lemma_mounted_header_kind(ls[m]);
    lemma_mounted_key();
    let p1 = ls.take(m + 1);
    assert(p1.drop_last() =~= ls.take(m));
    assert(p1.last() == ls[m]);
    assert(vdf_fold(p1).stack =~= seq!["appstate"@, "mountedconfig"@]);
    let p2 = ls.take(m + 2);
    assert(p2.drop_last() =~= p1);
    assert(p2.last() == ls[m + 1]);
    assert(vdf_kind(ls[m + 1]) == VdfKind::Open);
    let mb = ls.subrange(m + 2, f);
    assert forall|i: int| 0 <= i < mb.len() implies (vdf_kind(#[trigger] mb[i]) is Entry
        || vdf_kind(mb[i]) is Ignored) by {
        assert(mb[i] == ls[m + 2 + i]);
        assert(plain_body_line(ls[m + 2 + i]));
    }
    lemma_vdf_flat(p2, mb);
    assert(p2 + mb =~= ls.take(f));
}

/// After the `MountedConfig` section, the manifest's own lines leave the
/// same sections open and keep the reader's value for the mounted `betakey`.
#[verifier::rlimit(100)]
proof fn lemma_mounted_key_tail(
    c: Seq<char>,
    u: int,
    e: int,
    m: int,
    f: int,
    pre4: Seq<Seq<char>>,
    key: Seq<char>,
)
    requires
        two_sections_at(c, u, e, m, f),
        vdf_fold(pre4).stack == vdf_fold(lines(c).take(f)).stack,
        holds_at(vdf_fold(pre4).map, mounted_betakey_key(), key),
    ensures
        holds_at(
            vdf_fold(pre4 + lines(c).subrange(f, lines(c).len() as int)).map,
            mounted_betakey_key(),
            key,
        ),
{
    let ls = lines(c);
    let tail = ls.subrange(f, ls.len() as int);
    assert(vdf_kind(ls[f]) == VdfKind::Close) by {
        assert(seq!['}'] != seq!['{']) by {
            assert(seq!['}'][0] != seq!['{'][0]);
        }
    }
    assert forall|j: int| 0 <= j < tail.len() implies (vdf_kind(#[trigger] tail[j]) matches VdfKind::Entry(
        k,
        _,
    ) ==> vdf_key(vdf_fold(ls.take(f) + tail.take(j)).stack, k) != mounted_betakey_key()) by {
        assert(tail[j] == ls[f + j]);
        assert(ls.take(f) + tail.take(j) =~= ls.take(f + j));
    }
    lemma_vdf_tail_at(ls.take(f), pre4, tail, mounted_betakey_key(), key);
}

/// The rewritten `MountedConfig` body, read inside that section, gives `key`
/// for the mounted `betakey`.
proof fn lemma_mounted_key_body(
    c: Seq<char>,
    u: int,
    e: int,
    m: int,
    f: int,
    pre3: Seq<Seq<char>>,
    key: Seq<char>,
)
    requires
        two_sections_at(c, u, e, m, f),
        writable_key(key),
        vdf_fold(pre3).stack == vdf_fold(lines(c).take(m + 2)).stack,
    ensures
        vdf_fold(pre3 + (body_out(lines(c).subrange(m + 2, f), key) + inserted(
            lines(c).subrange(m + 2, f),
            key,
        ))).stack == vdf_fold(lines(c).take(f)).stack,
        holds_at(
            vdf_fold(pre3 + (body_out(lines(c).subrange(m + 2, f), key) + inserted(
                lines(c).subrange(m + 2, f),
                key,
            ))).map,
            mounted_betakey_key(),
            key,
        ),
{
    let ls = lines(c);
    lemma_mounted_stack(c, u, e, m, f);
    lemma_split_lines(c, u, e);
    let mb = ls.subrange(m + 2, f);
    assert forall|i: int| 0 <= i < mb.len() implies plain_body_line(#[trigger] mb[i]) by {
        assert(mb[i] == ls[m + 2 + i]);
    }
    lemma_clean_sub(ls, m + 2, f);
    lemma_body_out_reads(mb, key);
    let bo = body_out(mb, key) + inserted(mb, key);
    lemma_vdf_section_body(pre3, bo, key);
}

/// Reading the rewritten lines of such a manifest gives `key` for the
/// mounted `betakey`.
#[verifier::rlimit(100)]
proof fn lemma_parse_mounted_key(c: Seq<char>, u: int, e: int, m: int, f: int, key: Seq<char>)
    requires
        two_sections_at(c, u, e, m, f),
        writable_key(key),
    ensures
        holds_at(vdf_fold(rewritten_lines_mounted(c, u, e, m, f, key)).map, mounted_betakey_key(), key),
{
    let ls = lines(c);
    lemma_parse_user_part(c, u, e, key);
    let pre2 = rewritten_user_part(c, u, e, key);
    lemma_parse_tail_segment(c, e, e + 1, m + 2, pre2, key);
    let pre3 = pre2 + ls.subrange(e + 1, m + 2);
    assert(ls.take(e + 1) + ls.subrange(e + 1, m + 2) =~= ls.take(m + 2));
    let mb = ls.subrange(m + 2, f);
    lemma_mounted_key_body(c, u, e, m, f, pre3, key);
    let bo = body_out(mb, key) + inserted(mb, key);
    let pre4 = pre3 + bo;
    lemma_mounted_key_tail(c, u, e, m, f, pre4, key);
    let tail = ls.subrange(f, ls.len() as int);
    assert(tail =~= seq![ls[f]] + ls.skip(f + 1));
    assert(ls.subrange(e + 1, m + 2) =~= ls.subrange(e + 1, m) + seq![ls[m], ls[m + 1]]);
    assert(rewritten_lines_mounted(c, u, e, m, f, key) =~= pre4 + tail);
}

/// The line added at the end of a section whose body had no `betakey` line
/// writes only the section's `betakey`.
proof fn lemma_inserted_agree(
    pre1: Seq<Seq<char>>,
    pre2: Seq<Seq<char>>,
    body: Seq<Seq<char>>,
    key: Seq<char>,
    x: Seq<char>,
    y: Seq<char>,
)
    requires
        agree_except(vdf_fold(pre1).map, vdf_fold(pre2).map, x, y),
        vdf_key(vdf_fold(pre2).stack, "betakey"@) == x || vdf_key(vdf_fold(pre2).stack, "betakey"@)
            == y,
        writable_key(key),
    ensures
        agree_except(vdf_fold(pre1).map, vdf_fold(pre2 + inserted(body, key)).map, x, y),
        vdf_fold(pre2 + inserted(body, key)).stack == vdf_fold(pre2).stack,
{
    let ins = inserted(body, key);
    if any_rewrites(body) {
        assert(pre2 + ins =~= pre2);
    } else {
        reveal_strlit("\t\t");
        let tabs = "\t\t"@;
        assert forall|i: int| 0 <= i < tabs.len() implies is_white_space(#[trigger] tabs[i])
            && tabs[i] != '\n' by {}
        lemma_written_line_reads(tabs, key);
        let r = pre2 + ins;
        assert(r.drop_last() =~= pre2);
        assert(r.last() == written_line(tabs, key));
        let st = vdf_fold(pre2);
        lemma_agree_except_insert(
            vdf_fold(pre1).map,
            st.map,
            x,
            y,
            vdf_key(st.stack, "betakey"@),
            key,
            key,
        );
    }
}

/// Up to the `MountedConfig` section's opening brace, the manifest and its
/// rewrite are read with the same open sections and maps that agree apart
/// from the two `betakey` keys.
#[verifier::rlimit(100)]
proof fn lemma_two_sections_agree_head(c: Seq<char>, u: int, e: int, m: int, f: int, key: Seq<char>)
    requires
        two_sections_at(c, u, e, m, f),
        writable_key(key),
    ensures
        vdf_fold(lines(c).take(m + 2)).stack == vdf_fold(
            rewritten_user_part(c, u, e, key) + lines(c).subrange(e + 1, m + 2),
        ).stack,
        agree_except(
            vdf_fold(lines(c).take(m + 2)).map,
            vdf_fold(rewritten_user_part(c, u, e, key) + lines(c).subrange(e + 1, m + 2)).map,
            user_betakey_key(),
            mounted_betakey_key(),
        ),
{
    let ls = lines(c);
    let x = user_betakey_key();
    let y = mounted_betakey_key();
    lemma_split_lines(c, u, e);
    lemma_lines_no_newline(c);
    let p = ls.take(u);
    let h = ls[u];
    let o = ls[u + 1];
    let body = ls.subrange(u + 2, e);
    lemma_user_header_kind(h);
    let pre_h = p.push(h);
    assert(pre_h.drop_last() =~= p);
    assert(vdf_fold(pre_h).stack =~= user_stack());
    let pre_o = pre_h.push(o);
    assert(pre_o.drop_last() =~= pre_h);
    assert(vdf_kind(o) == VdfKind::Open);
    assert(vdf_fold(pre_o).stack =~= user_stack());
    lemma_user_key("betakey"@);
    assert(agree_except(vdf_fold(pre_o).map, vdf_fold(pre_o).map, x, y));
    assert forall|i: int| 0 <= i < body.len() && rewrites(#[trigger] body[i]) implies betakey_entry(
        body[i],
    ) by {
        assert(body[i] == ls[u + 2 + i]);
    }
    assert forall|i: int, j: int| 0 <= i < body.len() && 0 <= j < body[i].len() implies #[trigger] body[i][j]
        != '\n' by {
        assert(body[i] == ls[u + 2 + i]);
    }
    lemma_vdf_body_agree_except(pre_o, pre_o, body, key, x, y);
    let r1 = pre_o + body_out(body, key);
    lemma_inserted_agree(pre_o + body, r1, body, key, x, y);
    let r2 = r1 + inserted(body, key);
    let seg = ls.subrange(e, m + 2);
    lemma_vdf_same_lines_except(pre_o + body, r2, seg, x, y);
    assert(pre_o + body + seg =~= ls.take(m + 2));
    assert(seg =~= seq![ls[e]] + ls.subrange(e + 1, m + 2));
    assert(r2 + seg =~= rewritten_user_part(c, u, e, key) + ls.subrange(e + 1, m + 2));
}

/// Reading such a manifest before and after the rewrite gives the same keys,
/// with the same values, apart from the two `betakey` keys.
#[verifier::rlimit(100)]
proof fn lemma_two_sections_agree(c: Seq<char>, u: int, e: int, m: int, f: int, key: Seq<char>)
    requires
        two_sections_at(c, u, e, m, f),
        writable_key(key),
    ensures
        agree_except(
            vdf_fold(lines(c)).map,
            vdf_fold(rewritten_lines_mounted(c, u, e, m, f, key)).map,
            user_betakey_key(),
            mounted_betakey_key(),
        ),
{
    let ls = lines(c);
    let x = user_betakey_key();
    let y = mounted_betakey_key();
    lemma_mounted_stack(c, u, e, m, f);
    lemma_lines_no_newline(c);
    lemma_two_sections_agree_head(c, u, e, m, f, key);
    let pre3 = rewritten_user_part(c, u, e, key) + ls.subrange(e + 1, m + 2);
    let mb = ls.subrange(m + 2, f);
    assert forall|i: int| 0 <= i < mb.len() implies plain_body_line(#[trigger] mb[i]) by {
        assert(mb[i] == ls[m + 2 + i]);
    }
    assert forall|i: int| 0 <= i < mb.len() && rewrites(#[trigger] mb[i]) implies betakey_entry(
        mb[i],
    ) by {
        assert(mb[i] == ls[m + 2 + i]);
    }
    assert forall|i: int, j: int| 0 <= i < mb.len() && 0 <= j < mb[i].len() implies #[trigger] mb[i][j]
        != '\n' by {
        assert(mb[i] == ls[m + 2 + i]);
    }
    lemma_vdf_body_agree_except(ls.take(m + 2), pre3, mb, key, x, y);
    let r3 = pre3 + body_out(mb, key);
    lemma_inserted_agree(ls.take(m + 2) + mb, r3, mb, key, x, y);
    let r4 = r3 + inserted(mb, key);
    let tail = ls.subrange(f, ls.len() as int);
    lemma_vdf_same_lines_except(ls.take(m + 2) + mb, r4, tail, x, y);
    assert(ls.take(m + 2) + mb + tail =~= ls);
    assert(tail =~= seq![ls[f]] + ls.skip(f + 1));
    assert(ls.subrange(e + 1, m + 2) =~= ls.subrange(e + 1, m) + seq![ls[m], ls[m + 1]]);
    assert(rewritten_lines_mounted(c, u, e, m, f, key) =~= r4 + tail);
}

/// Setting the `betakey` of a manifest with a `UserConfig` and a
/// `MountedConfig` section, as `two_sections_at` describes it, writes the key
/// into both sections and leaves every other key the reader finds, and its
/// value, as it was.
pub proof fn law_betakey_two_sections(
    c: Seq<char>,
    key: Seq<char>,
    u: int,
    e: int,
    m: int,
    f: int,
)
    requires
        two_sections_at(c, u, e, m, f),
        writable_key(key),
    ensures
        acf_rewritable(c, key),
        parse_vdf(acf_with_betakey(c, key)).dom().contains("appstate.userconfig.betakey"@),
        parse_vdf(acf_with_betakey(c, key))["appstate.userconfig.betakey"@] == key,
        parse_vdf(acf_with_betakey(c, key)).dom().contains("appstate.mountedconfig.betakey"@),
        parse_vdf(acf_with_betakey(c, key))["appstate.mountedconfig.betakey"@] == key,
        forall|k: Seq<char>|
            k != "appstate.userconfig.betakey"@ && k != "appstate.mountedconfig.betakey"@ ==> (
            #[trigger] parse_vdf(acf_with_betakey(c, key)).dom().contains(k) <==> parse_vdf(
                c,
            ).dom().contains(k)) && (parse_vdf(c).dom().contains(k) ==> parse_vdf(
                acf_with_betakey(c, key),
            )[k] == parse_vdf(c)[k]),
{
    law_betakey_reads_back_mounted(c, key, u, e, m, f);
    lemma_out_lines_mounted(c, u, e, m, f, key);
    lemma_parse_mounted_key(c, u, e, m, f, key);
    lemma_two_sections_agree(c, u, e, m, f, key);
}

/// A manifest whose `MountedConfig` section (header at `m`, closing brace at
/// `f`) comes before its `UserConfig` section (header at `u`, closing brace at
/// `e`):
/// - no line ends with a carriage return;
/// - before the first header, between the sections and after the second, no
///   line names a config section;
/// - the header lines are `"MountedConfig"` and `"UserConfig"`, and the
///   sections' braces stand on lines of their own;
/// - the lines of both bodies are entries or ignored lines naming no config
///   section, and in the `UserConfig` body each entry for `betakey` is one
///   the rewriter replaces;
/// - the reader has exactly `AppState` open at the `UserConfig` header;
/// - after the `UserConfig` section, no line the reader takes for an entry
///   writes the key `appstate.userconfig.betakey`.
pub open spec fn mounted_user_at(c: Seq<char>, m: int, f: int, u: int, e: int) -> bool {
    let ls = lines(c);
    &&& 0 <= m && m + 1 < f < u && u + 1 < e < ls.len()
    &&& forall|i: int| 0 <= i < ls.len() && #[trigger] ls[i].len() > 0 ==> ls[i].last() != '\r'
    &&& no_config_headers(ls.take(m))
    &&& mounted_header(ls[m])
    &&& brace_line(ls[m + 1], '{')
    &&& forall|i: int| m + 1 < i < f ==> section_line(#[trigger] ls[i])
    &&& brace_line(ls[f], '}')
    &&& no_config_headers(ls.subrange(f + 1, u))
    &&& vdf_fold(ls.take(u)).stack == seq!["appstate"@]
    &&& user_header(ls[u])
    &&& brace_line(ls[u + 1], '{')
    &&& forall|i: int| u + 1 < i < e ==> plain_body_line(#[trigger] ls[i])
    &&& brace_line(ls[e], '}')
    &&& no_config_headers(ls.skip(e + 1))
    &&& forall|j: int|
        e < j < ls.len() ==> (vdf_kind(#[trigger] ls[j]) matches VdfKind::Entry(k, _) ==> vdf_key(
            vdf_fold(ls.take(j)).stack,
            k,
        ) != user_betakey_key())
}

/// The lines the rewriter writes for such a manifest.
pub open spec fn rewritten_lines_mounted_first(
    c: Seq<char>,
    m: int,
    f: int,
    u: int,
    e: int,
    key: Seq<char>,
) -> Seq<Seq<char>> {
    let ls = lines(c);
    let mb = ls.subrange(m + 2, f);
    let body = ls.subrange(u + 2, e);
    ls.take(m) + seq![ls[m], ls[m + 1]] + body_out(mb, key) + inserted(mb, key) + seq![ls[f]]
        + ls.subrange(f + 1, u) + seq![ls[u], ls[u + 1]] + body_out(body, key) + inserted(body, key)
        + seq![ls[e]] + ls.skip(e + 1)
}

proof fn lemma_mf_bodies(c: Seq<char>, m: int, f: int, u: int, e: int)
    requires
        mounted_user_at(c, m, f, u, e),
    ensures
        forall|i: int|
            0 <= i < lines(c).subrange(m + 2, f).len() ==> section_line(
                #[trigger] lines(c).subrange(m + 2, f)[i],
            ),
        forall|i: int|
            0 <= i < lines(c).subrange(u + 2, e).len() ==> plain_body_line(
                #[trigger] lines(c).subrange(u + 2, e)[i],
            ),
        clean_lines(lines(c)),
{
    let ls = lines(c);
    assert forall|i: int| 0 <= i < ls.subrange(m + 2, f).len() implies section_line(
        #[trigger] ls.subrange(m + 2, f)[i],
    ) by {
        assert(ls.subrange(m + 2, f)[i] == ls[m + 2 + i]);
    }
    assert forall|i: int| 0 <= i < ls.subrange(u + 2, e).len() implies plain_body_line(
        #[trigger] ls.subrange(u + 2, e)[i],
    ) by {
        assert(ls.subrange(u + 2, e)[i] == ls[u + 2 + i]);
    }
    lemma_lines_no_newline(c);
    assert forall|i: int| 0 <= i < ls.len() implies (forall|j: int|
        0 <= j < ls[i].len() ==> #[trigger] ls[i][j] != '\n') && (#[trigger] ls[i].len() > 0
        ==> ls[i].last() != '\r') by {}
}

/// The rewriter writes `rewritten_lines_mounted_first` for such a manifest.
#[verifier::rlimit(100)]
proof fn lemma_acf_manifest_mounted_first(
    c: Seq<char>,
    m: int,
    f: int,
    u: int,
    e: int,
    key: Seq<char>,
)
    requires
        mounted_user_at(c, m, f, u, e),
    ensures
        acf_fold(lines(c), key).ok,
        acf_fold(lines(c), key).out == joined_lines(
            rewritten_lines_mounted_first(c, m, f, u, e, key),
        ),
{
    let ls = lines(c);
    lemma_mf_bodies(c, m, f, u, e);
    let p = ls.take(m);
    let mb = ls.subrange(m + 2, f);
    let body = ls.subrange(u + 2, e);
    let mid = ls.subrange(f + 1, u);
    let rest = ls.skip(e + 1);
    let empty = Seq::<Seq<char>>::empty();
    assert(empty + p =~= p);
    assert(acf_fold(empty, key) == crate::steam::acf_start());
    assert(in_i32(0));
    lemma_acf_copy(empty, p, key);
    assert(acf_fold(p, key).out =~= joined_lines(p));
    lemma_acf_mounted_then_copy(p, ls[m], ls[m + 1], mb, ls[f], mid, key);
    let pre3 = p + seq![ls[m], ls[m + 1]] + mb + seq![ls[f]] + mid;
    lemma_acf_user_then_copy(pre3, ls[u], ls[u + 1], body, ls[e], rest, key);
    lemma_two_blocks(ls, m, f, u, e);
    let msec = seq![ls[m], ls[m + 1]] + body_out(mb, key) + inserted(mb, key) + seq![ls[f]] + mid;
    let sec = seq![ls[u], ls[u + 1]] + body_out(body, key) + inserted(body, key) + seq![ls[e]] + rest;
    lemma_joined_lines_append(p, msec);
    lemma_joined_lines_append(p + msec, sec);
    lemma_mf_rewritten_blocks(c, m, f, u, e, key);
}

/// The rewritten lines of such a manifest, cut after each section's
/// following lines.
proof fn lemma_mf_rewritten_blocks(c: Seq<char>, m: int, f: int, u: int, e: int, key: Seq<char>)
    requires
        mounted_user_at(c, m, f, u, e),
    ensures
        rewritten_lines_mounted_first(c, m, f, u, e, key) == lines(c).take(m) + (seq![
            lines(c)[m],
            lines(c)[m + 1],
        ] + body_out(lines(c).subrange(m + 2, f), key) + inserted(lines(c).subrange(m + 2, f), key)
            + seq![lines(c)[f]] + lines(c).subrange(f + 1, u)) + (seq![lines(c)[u], lines(c)[u + 1]]
            + body_out(lines(c).subrange(u + 2, e), key) + inserted(lines(c).subrange(u + 2, e), key)
            + seq![lines(c)[e]] + lines(c).skip(e + 1)),
{
    let ls = lines(c);
    assert(rewritten_lines_mounted_first(c, m, f, u, e, key) =~= ls.take(m) + (seq![ls[m], ls[m + 1]]
        + body_out(ls.subrange(m + 2, f), key) + inserted(ls.subrange(m + 2, f), key) + seq![ls[f]]
        + ls.subrange(f + 1, u)) + (seq![ls[u], ls[u + 1]] + body_out(ls.subrange(u + 2, e), key)
        + inserted(ls.subrange(u + 2, e), key) + seq![ls[e]] + ls.skip(e + 1)));
}

/// Reading the rewritten text of such a manifest gives the lines written.
#[verifier::rlimit(100)]
proof fn lemma_out_lines_mounted_first(
    c: Seq<char>,
    m: int,
    f: int,
    u: int,
    e: int,
    key: Seq<char>,
)
    requires
        mounted_user_at(c, m, f, u, e),
        writable_key(key),
    ensures
        acf_rewritable(c, key),
        lines(acf_with_betakey(c, key)) == rewritten_lines_mounted_first(c, m, f, u, e, key),
{
    let ls = lines(c);
    lemma_mf_bodies(c, m, f, u, e);
    lemma_acf_manifest_mounted_first(c, m, f, u, e, key);
    let body = ls.subrange(u + 2, e);
    lemma_clean_sub(ls, u + 2, e);
    lemma_body_out_reads(body, key);
    let mb = ls.subrange(m + 2, f);
    lemma_clean_sub(ls, m + 2, f);
    lemma_mbody_out_reads(mb, key);
    let ol = rewritten_lines_mounted_first(c, m, f, u, e, key);
    lemma_clean_sub(ls, 0, m);
    lemma_clean_sub(ls, m, m + 2);
    lemma_clean_sub(ls, f, f + 1);
    lemma_clean_sub(ls, f + 1, u);
    lemma_clean_sub(ls, u, u + 2);
    lemma_clean_sub(ls, e, e + 1);
    lemma_clean_sub(ls, e + 1, ls.len() as int);
    assert(ls.subrange(0, m) =~= ls.take(m));
    assert(ls.subrange(m, m + 2) =~= seq![ls[m], ls[m + 1]]);
    assert(ls.subrange(f, f + 1) =~= seq![ls[f]]);
    assert(ls.subrange(u, u + 2) =~= seq![ls[u], ls[u + 1]]);
    assert(ls.subrange(e, e + 1) =~= seq![ls[e]]);
    assert(ls.subrange(e + 1, ls.len() as int) =~= ls.skip(e + 1));
    let mbo = body_out(mb, key) + inserted(mb, key);
    let bo = body_out(body, key) + inserted(body, key);
    let a1 = ls.take(m) + seq![ls[m], ls[m + 1]];
    lemma_clean_append(ls.take(m), seq![ls[m], ls[m + 1]]);
    lemma_clean_append(a1, mbo);
    lemma_clean_append(a1 + mbo, seq![ls[f]]);
    let a2 = a1 + mbo + seq![ls[f]];
    lemma_clean_append(a2, ls.subrange(f + 1, u));
    lemma_clean_append(a2 + ls.subrange(f + 1, u), seq![ls[u], ls[u + 1]]);
    let a3 = a2 + ls.subrange(f + 1, u) + seq![ls[u], ls[u + 1]];
    lemma_clean_append(a3, bo);
    lemma_clean_append(a3 + bo, seq![ls[e]]);
    lemma_clean_append(a3 + bo + seq![ls[e]], ls.skip(e + 1));
    assert(ol =~= a3 + bo + seq![ls[e]] + ls.skip(e + 1));
    if e + 1 < ls.len() {
        assert(ol.last() == ls.last());
    } else {
        assert(ol.last() == ls[e]);
    }
    lemma_output_lines(c, ol, key);
}

/// The same lines read after two beginnings with the same open sections keep
/// them the same.
proof fn lemma_vdf_same_stack(pre1: Seq<Seq<char>>, pre2: Seq<Seq<char>>, ls: Seq<Seq<char>>)
    requires
        vdf_fold(pre1).stack == vdf_fold(pre2).stack,
    ensures
        vdf_fold(pre1 + ls).stack == vdf_fold(pre2 + ls).stack,
    decreases ls.len(),
{
    if ls.len() == 0 {
        assert(pre1 + ls =~= pre1);
        assert(pre2 + ls =~= pre2);
    } else {
        let l0 = ls.drop_last();
        lemma_vdf_same_stack(pre1, pre2, l0);
        assert((pre1 + ls).drop_last() =~= pre1 + l0);
        assert((pre2 + ls).drop_last() =~= pre2 + l0);
        assert((pre1 + ls).last() == ls.last());
        assert((pre2 + ls).last() == ls.last());
    }
}

/// A `UserConfig` section read, as written and as rewritten, directly inside
/// `AppState`: both leave `AppState` open, and the rewritten one gives `key`
/// for the user `betakey`.
#[verifier::rlimit(100)]
proof fn lemma_parse_user_section(
    pre1: Seq<Seq<char>>,
    pre2: Seq<Seq<char>>,
    h: Seq<char>,
    o: Seq<char>,
    body: Seq<Seq<char>>,
    cl: Seq<char>,
    key: Seq<char>,
)
    requires
        vdf_fold(pre1).stack == seq!["appstate"@],
        vdf_fold(pre2).stack == seq!["appstate"@],
        user_header(h),
        brace_line(o, '{'),
        forall|i: int| 0 <= i < body.len() ==> plain_body_line(#[trigger] body[i]),
        clean_lines(body),
        brace_line(cl, '}'),
        writable_key(key),
    ensures
        vdf_fold(pre1 + seq![h, o] + body + seq![cl]).stack == seq!["appstate"@],
        vdf_fold(pre2 + seq![h, o] + (body_out(body, key) + inserted(body, key)) + seq![cl]).stack
            == seq!["appstate"@],
        holds_key(
            vdf_fold(pre2 + seq![h, o] + (body_out(body, key) + inserted(body, key)) + seq![cl]).map,
            key,
        ),
{
    lemma_body_out_reads(body, key);
    let bo = body_out(body, key) + inserted(body, key);
    lemma_user_header_kind(h);
    assert(vdf_kind(o) == VdfKind::Open);
    assert(seq!['}'] != seq!['{']) by {
        assert(seq!['}'][0] != seq!['{'][0]);
    }
    assert(vdf_kind(cl) == VdfKind::Close);
    lemma_user_key("betakey"@);
    // as rewritten
    let a_h = pre2.push(h);
    assert(a_h.drop_last() =~= pre2);
    assert(vdf_fold(a_h).stack =~= user_stack());
    let a_o = a_h.push(o);
    assert(a_o.drop_last() =~= a_h);
    assert(vdf_fold(a_o).stack == user_stack());
    lemma_vdf_section_body(a_o, bo, key);
    let a_c = (a_o + bo).push(cl);
    assert(a_c.drop_last() =~= a_o + bo);
    assert(vdf_fold(a_c).stack =~= seq!["appstate"@]);
    assert(a_c =~= pre2 + seq![h, o] + bo + seq![cl]);
    // as written
    let b_h = pre1.push(h);
    assert(b_h.drop_last() =~= pre1);
    assert(b_h.last() == h);
    assert(vdf_fold(b_h).stack =~= user_stack());
    let b_o = b_h.push(o);
    assert(b_o.last() == o);
    assert(b_o.drop_last() =~= b_h);
    assert(vdf_fold(b_o).stack =~= user_stack());
    assert forall|i: int| 0 <= i < body.len() implies (vdf_kind(#[trigger] body[i]) is Entry
        || vdf_kind(body[i]) is Ignored) by {
        assert(plain_body_line(body[i]));
    }
    lemma_vdf_flat(b_o, body);
    let b_c = (b_o + body).push(cl);
    assert(b_c.drop_last() =~= b_o + body);
    assert(vdf_fold(b_c).stack =~= seq!["appstate"@]);
    assert(b_c =~= pre1 + seq![h, o] + body + seq![cl]);
}

/// Reading the rewritten lines of such a manifest gives `key` for the user
/// `betakey`.
#[verifier::rlimit(100)]
proof fn lemma_parse_mounted_first(c: Seq<char>, m: int, f: int, u: int, e: int, key: Seq<char>)
    requires
        mounted_user_at(c, m, f, u, e),
        writable_key(key),
    ensures
        holds_key(vdf_fold(rewritten_lines_mounted_first(c, m, f, u, e, key)).map, key),
{
    let ls = lines(c);
    lemma_mf_bodies(c, m, f, u, e);
    let mb = ls.subrange(m + 2, f);
    lemma_clean_sub(ls, m + 2, f);
    lemma_mbody_out_reads(mb, key);
    let mbo = body_out(mb, key) + inserted(mb, key);
    // up to the `UserConfig` header the open sections are the same
    let a = ls.take(m) + seq![ls[m], ls[m + 1]];
    assert forall|i: int| 0 <= i < mb.len() implies (vdf_kind(#[trigger] mb[i]) is Entry
        || vdf_kind(mb[i]) is Ignored) by {
        assert(section_line(mb[i]));
    }
    lemma_vdf_flat(a, mb);
    lemma_vdf_flat(a, mbo);
    let rest1 = seq![ls[f]] + ls.subrange(f + 1, u);
    lemma_vdf_same_stack(a + mb, a + mbo, rest1);
    assert(a + mb + rest1 =~= ls.take(u));
    let r = a + mbo + rest1;
    // the `UserConfig` section
    let body = ls.subrange(u + 2, e);
    lemma_clean_sub(ls, u + 2, e);
    lemma_parse_user_section(ls.take(u), r, ls[u], ls[u + 1], body, ls[e], key);
    let bo = body_out(body, key) + inserted(body, key);
    let r2 = r + seq![ls[u], ls[u + 1]] + bo + seq![ls[e]];
    assert(ls.take(u) + seq![ls[u], ls[u + 1]] + body + seq![ls[e]] =~= ls.take(e + 1));
    // the lines after it
    let tail = ls.skip(e + 1);
    assert forall|j: int| 0 <= j < tail.len() implies (vdf_kind(#[trigger] tail[j]) matches VdfKind::Entry(
        k,
        _,
    ) ==> vdf_key(vdf_fold(ls.take(e + 1) + tail.take(j)).stack, k) != user_betakey_key()) by {
        assert(tail[j] == ls[e + 1 + j]);
        assert(ls.take(e + 1) + tail.take(j) =~= ls.take(e + 1 + j));
    }
    lemma_vdf_tail_at(ls.take(e + 1), r2, tail, user_betakey_key(), key);
    assert(rewritten_lines_mounted_first(c, m, f, u, e, key) =~= r2 + tail);
}

/// Setting the `betakey` of a manifest whose `MountedConfig` section comes
/// before its `UserConfig` section, as `mounted_user_at` describes it,
/// succeeds, and reading the result gives the key written for
/// `appstate.userconfig.betakey`, the entry the branch is read from.
pub proof fn law_betakey_reads_back_mounted_first(
    c: Seq<char>,
    key: Seq<char>,
    m: int,
    f: int,
    u: int,
    e: int,
)
    requires
        mounted_user_at(c, m, f, u, e),
        writable_key(key),
    ensures
        acf_rewritable(c, key),
        parse_vdf(acf_with_betakey(c, key)).dom().contains("appstate.userconfig.betakey"@),
        parse_vdf(acf_with_betakey(c, key))["appstate.userconfig.betakey"@] == key,
        manifest_betakey(parse_vdf(acf_with_betakey(c, key))) == key,
{
    lemma_out_lines_mounted_first(c, m, f, u, e, key);
    lemma_parse_mounted_first(c, m, f, u, e, key);
}

/// Switching a manifest whose `MountedConfig` section comes before its
/// `UserConfig` section, as `mounted_user_at` describes it, to a branch and
/// reading its branch back gives that branch: the rewrite succeeds, and
/// `detect_branch` of the result returns `Ok(target)`.
pub proof fn law_switch_then_detect_mounted_first(
    c: Seq<char>,
    target: Branch,
    m: int,
    f: int,
    u: int,
    e: int,
)
    requires
        mounted_user_at(c, m, f, u, e),
    ensures
        acf_rewritable(c, branch_betakey(target)),
        branch_of(
            lower_text(manifest_betakey(parse_vdf(acf_with_betakey(c, branch_betakey(target))))),
        ) == Some(target),
{
    lemma_branch_key_writable(target);
    law_betakey_reads_back_mounted_first(c, branch_betakey(target), m, f, u, e);
    law_branch_names_denote_branch(target);
}

/// A `MountedConfig` section and then lines naming no config section.
#[verifier::rlimit(100)]
proof fn lemma_acf_mounted_then_copy(
    pre: Seq<Seq<char>>,
    h: Seq<char>,
    o: Seq<char>,
    body: Seq<Seq<char>>,
    cl: Seq<char>,
    mid: Seq<Seq<char>>,
    key: Seq<char>,
)
    requires
        outside(acf_fold(pre, key)),
        !acf_fold(pre, key).found_mounted,
        mounted_header(h),
        brace_line(o, '{'),
        forall|i: int| 0 <= i < body.len() ==> section_line(#[trigger] body[i]),
        brace_line(cl, '}'),
        no_config_headers(mid),
    ensures
        outside(acf_fold(pre + seq![h, o] + body + seq![cl] + mid, key)),
        acf_fold(pre + seq![h, o] + body + seq![cl] + mid, key).found_user == acf_fold(
            pre,
            key,
        ).found_user,
        acf_fold(pre + seq![h, o] + body + seq![cl] + mid, key).out == acf_fold(pre, key).out
            + joined_lines(
            seq![h, o] + body_out(body, key) + inserted(body, key) + seq![cl] + mid,
        ),
{
    lemma_acf_mounted_section(pre, h, o, body, cl, key);
    let pre2 = pre + seq![h, o] + body + seq![cl];
    lemma_acf_copy(pre2, mid, key);
    lemma_joined_lines_append(
        seq![h, o] + body_out(body, key) + inserted(body, key) + seq![cl],
        mid,
    );
}

/// A `UserConfig` section and then lines naming no config section.
#[verifier::rlimit(100)]
proof fn lemma_acf_user_then_copy(
    pre: Seq<Seq<char>>,
    h: Seq<char>,
    o: Seq<char>,
    body: Seq<Seq<char>>,
    cl: Seq<char>,
    mid: Seq<Seq<char>>,
    key: Seq<char>,
)
    requires
        outside(acf_fold(pre, key)),
        !acf_fold(pre, key).found_user,
        user_header(h),
        brace_line(o, '{'),
        forall|i: int| 0 <= i < body.len() ==> plain_body_line(#[trigger] body[i]),
        brace_line(cl, '}'),
        no_config_headers(mid),
    ensures
        outside(acf_fold(pre + seq![h, o] + body + seq![cl] + mid, key)),
        acf_fold(pre + seq![h, o] + body + seq![cl] + mid, key).found_mounted == acf_fold(
            pre,
            key,
        ).found_mounted,
        acf_fold(pre + seq![h, o] + body + seq![cl] + mid, key).out == acf_fold(pre, key).out
            + joined_lines(
            seq![h, o] + body_out(body, key) + inserted(body, key) + seq![cl] + mid,
        ),
{
    lemma_acf_user_section(pre, h, o, body, cl, key);
    let pre2 = pre + seq![h, o] + body + seq![cl];
    lemma_acf_copy(pre2, mid, key);
    lemma_joined_lines_append(
        seq![h, o] + body_out(body, key) + inserted(body, key) + seq![cl],
        mid,
    );
}

/// A manifest as `mounted_user_at` describes it where, moreover, the
/// `MountedConfig` header stands directly in `AppState`, the lines of its
/// body are as `plain_body_line` asks, every line the rewriter replaces in
/// either section is an entry for `betakey`, and no line after the
/// `MountedConfig` section writes the key `appstate.mountedconfig.betakey`.
pub open spec fn two_sections_mounted_first_at(c: Seq<char>, m: int, f: int, u: int, e: int) -> bool {
    let ls = lines(c);
    &&& mounted_user_at(c, m, f, u, e)
    &&& vdf_fold(ls.take(m)).stack == seq!["appstate"@]
    &&& forall|i: int| m + 1 < i < f ==> plain_body_line(#[trigger] ls[i])
    &&& forall|i: int|
        (m + 1 < i < f || u + 1 < i < e) && rewrites(#[trigger] ls[i]) ==> betakey_entry(ls[i])
    &&& forall|j: int|
        f < j < ls.len() ==> (vdf_kind(#[trigger] ls[j]) matches VdfKind::Entry(k, _) ==> vdf_key(
            vdf_fold(ls.take(j)).stack,
            k,
        ) != mounted_betakey_key())
}

/// The sections the reader has open in the two bodies of such a manifest.
#[verifier::rlimit(100)]
proof fn lemma_mf_stacks(c: Seq<char>, m: int, f: int, u: int, e: int)
    requires
        two_sections_mounted_first_at(c, m, f, u, e),
    ensures
        vdf_fold(lines(c).take(m + 2)).stack == seq!["appstate"@, "mountedconfig"@],
        vdf_fold(lines(c).take(f)).stack == seq!["appstate"@, "mountedconfig"@],
        vdf_fold(lines(c).take(u + 2)).stack == user_stack(),
        vdf_fold(lines(c).take(e)).stack == user_stack(),
        vdf_key(seq!["appstate"@, "mountedconfig"@], "betakey"@) == mounted_betakey_key(),
        vdf_key(user_stack(), "betakey"@) == user_betakey_key(),
        mounted_betakey_key() != user_betakey_key(),
{
    let ls = lines(c);
    lemma_mounted_header_kind(ls[m]);
    lemma_user_header_kind(ls[u]);
    lemma_mounted_key();
    lemma_user_key("betakey"@);
    let p1 = ls.take(m + 1);
    assert(p1.drop_last() =~= ls.take(m));
    assert(p1.last() == ls[m]);
    assert(vdf_fold(p1).stack =~= seq!["appstate"@, "mountedconfig"@]);
    let p2 = ls.take(m + 2);
    assert(p2.drop_last() =~= p1);
    assert(p2.last() == ls[m + 1]);
    assert(vdf_kind(ls[m + 1]) == VdfKind::Open);
    let mb = ls.subrange(m + 2, f);
    assert forall|i: int| 0 <= i < mb.len() implies (vdf_kind(#[trigger] mb[i]) is Entry
        || vdf_kind(mb[i]) is Ignored) by {
        assert(mb[i] == ls[m + 2 + i]);
        assert(plain_body_line(ls[m + 2 + i]));
    }
    lemma_vdf_flat(p2, mb);
    assert(p2 + mb =~= ls.take(f));
    let q1 = ls.take(u + 1);
    assert(q1.drop_last() =~= ls.take(u));
    assert(q1.last() == ls[u]);
    assert(vdf_fold(q1).stack =~= user_stack());
    let q2 = ls.take(u + 2);
    assert(q2.drop_last() =~= q1);
    assert(q2.last() == ls[u + 1]);
    assert(vdf_kind(ls[u + 1]) == VdfKind::Open);
    let body = ls.subrange(u + 2, e);
    assert forall|i: int| 0 <= i < body.len() implies (vdf_kind(#[trigger] body[i]) is Entry
        || vdf_kind(body[i]) is Ignored) by {
        assert(body[i] == ls[u + 2 + i]);
        assert(plain_body_line(ls[u + 2 + i]));
    }
    lemma_vdf_flat(q2, body);
    assert(q2 + body =~= ls.take(e));
}

/// The manifest's own lines from `a` to `b`, all after the `MountedConfig`
/// body, read after lines with the same open sections, keep them so and keep
/// the reader's value for the mounted `betakey`.
#[verifier::rlimit(100)]
proof fn lemma_mf_segment(
    c: Seq<char>,
    m: int,
    f: int,
    u: int,
    e: int,
    a: int,
    b: int,
    pre: Seq<Seq<char>>,
    key: Seq<char>,
)
    requires
        two_sections_mounted_first_at(c, m, f, u, e),
        f <= a <= b <= lines(c).len(),
        a == f || a == e,
        vdf_fold(pre).stack == vdf_fold(lines(c).take(a)).stack,
        holds_at(vdf_fold(pre).map, mounted_betakey_key(), key),
    ensures
        vdf_fold(pre + lines(c).subrange(a, b)).stack == vdf_fold(lines(c).take(b)).stack,
        holds_at(vdf_fold(pre + lines(c).subrange(a, b)).map, mounted_betakey_key(), key),
{
    let ls = lines(c);
    let seg = ls.subrange(a, b);
    assert(seg.len() == b - a);
    assert(vdf_kind(ls[a]) == VdfKind::Close) by {
        assert(seq!['}'] != seq!['{']) by {
            assert(seq!['}'][0] != seq!['{'][0]);
        }
    }
    assert forall|j: int| 0 <= j < seg.len() implies (vdf_kind(#[trigger] seg[j]) matches VdfKind::Entry(
        k,
        _,
    ) ==> vdf_key(vdf_fold(ls.take(a) + seg.take(j)).stack, k) != mounted_betakey_key()) by {
        assert(seg[j] == ls[a + j]);
        assert(ls.take(a) + seg.take(j) =~= ls.take(a + j));
    }
    lemma_vdf_tail_at(ls.take(a), pre, seg, mounted_betakey_key(), key);
    assert(ls.take(a) + seg =~= ls.take(b));
}

/// The rewritten `UserConfig` body of such a manifest keeps the reader's
/// value for the mounted `betakey`.
#[verifier::rlimit(100)]
proof fn lemma_mf_user_body_keeps(
    c: Seq<char>,
    m: int,
    f: int,
    u: int,
    e: int,
    pre: Seq<Seq<char>>,
    key: Seq<char>,
)
    requires
        two_sections_mounted_first_at(c, m, f, u, e),
        writable_key(key),
        vdf_fold(pre).stack == user_stack(),
        holds_at(vdf_fold(pre).map, mounted_betakey_key(), key),
    ensures
        vdf_fold(pre + (body_out(lines(c).subrange(u + 2, e), key) + inserted(
            lines(c).subrange(u + 2, e),
            key,
        ))).stack == user_stack(),
        holds_at(
            vdf_fold(pre + (body_out(lines(c).subrange(u + 2, e), key) + inserted(
                lines(c).subrange(u + 2, e),
                key,
            ))).map,
            mounted_betakey_key(),
            key,
        ),
{
    let ls = lines(c);
    lemma_mf_stacks(c, m, f, u, e);
    lemma_mf_bodies(c, m, f, u, e);
    let body = ls.subrange(u + 2, e);
    assert forall|i: int| 0 <= i < body.len() implies section_line(#[trigger] body[i]) by {
        assert(plain_body_line(body[i]));
    }
    lemma_clean_sub(ls, u + 2, e);
    lemma_mbody_out_reads(body, key);
    let bo = body_out(body, key) + inserted(body, key);
    assert forall|i: int| 0 <= i < bo.len() implies (vdf_kind(#[trigger] bo[i]) matches VdfKind::Entry(
        k,
        _,
    ) ==> vdf_key(vdf_fold(pre).stack, k) != mounted_betakey_key()) by {
        if i < body.len() && bo[i] == body[i] {
            assert(body[i] == ls[u + 2 + i]);
            assert forall|t: int| 0 <= t < body.take(i).len() implies (vdf_kind(
                #[trigger] body.take(i)[t],
            ) is Entry || vdf_kind(body.take(i)[t]) is Ignored) by {
                assert(body.take(i)[t] == body[t]);
                assert(plain_body_line(body[t]));
            }
            lemma_vdf_flat(ls.take(u + 2), body.take(i));
            assert(ls.take(u + 2) + body.take(i) =~= ls.take(u + 2 + i));
        }
    }
    lemma_vdf_keep(pre, bo, mounted_betakey_key(), key);
}

/// Reading the rewritten lines of such a manifest gives `key` for the
/// mounted `betakey`.
#[verifier::rlimit(100)]
proof fn lemma_mf_mounted_key(c: Seq<char>, m: int, f: int, u: int, e: int, key: Seq<char>)
    requires
        two_sections_mounted_first_at(c, m, f, u, e),
        writable_key(key),
    ensures
        holds_at(
            vdf_fold(rewritten_lines_mounted_first(c, m, f, u, e, key)).map,
            mounted_betakey_key(),
            key,
        ),
{
    let ls = lines(c);
    lemma_mf_stacks(c, m, f, u, e);
    lemma_mf_bodies(c, m, f, u, e);
    let r0 = ls.take(m + 2);
    let mb = ls.subrange(m + 2, f);
    assert forall|i: int| 0 <= i < mb.len() implies plain_body_line(#[trigger] mb[i]) by {
        assert(mb[i] == ls[m + 2 + i]);
    }
    lemma_clean_sub(ls, m + 2, f);
    lemma_body_out_reads(mb, key);
    let mbo = body_out(mb, key) + inserted(mb, key);
    lemma_vdf_section_body(r0, mbo, key);
    lemma_mf_segment(c, m, f, u, e, f, u + 2, r0 + mbo, key);
    let r1 = r0 + mbo + ls.subrange(f, u + 2);
    lemma_mf_user_body_keeps(c, m, f, u, e, r1, key);
    let body = ls.subrange(u + 2, e);
    let r2 = r1 + (body_out(body, key) + inserted(body, key));
    lemma_mf_segment(c, m, f, u, e, e, ls.len() as int, r2, key);
    lemma_mf_rewritten_split(c, m, f, u, e, key);
}

/// Up to the `UserConfig` section's opening brace, such a manifest and its
/// rewrite are read with the same open sections and maps that agree apart
/// from the two `betakey` keys.
#[verifier::rlimit(100)]
proof fn lemma_mf_agree_head(c: Seq<char>, m: int, f: int, u: int, e: int, key: Seq<char>)
    requires
        two_sections_mounted_first_at(c, m, f, u, e),
        writable_key(key),
    ensures
        vdf_fold(lines(c).take(u + 2)).stack == vdf_fold(
            lines(c).take(m + 2) + (body_out(lines(c).subrange(m + 2, f), key) + inserted(
                lines(c).subrange(m + 2, f),
                key,
            )) + lines(c).subrange(f, u + 2),
        ).stack,
        agree_except(
            vdf_fold(lines(c).take(u + 2)).map,
            vdf_fold(
                lines(c).take(m + 2) + (body_out(lines(c).subrange(m + 2, f), key) + inserted(
                    lines(c).subrange(m + 2, f),
                    key,
                )) + lines(c).subrange(f, u + 2),
            ).map,
            user_betakey_key(),
            mounted_betakey_key(),
        ),
{
    let ls = lines(c);
    let x = user_betakey_key();
    let y = mounted_betakey_key();
    lemma_mf_stacks(c, m, f, u, e);
    lemma_lines_no_newline(c);
    let a = ls.take(m + 2);
    assert(agree_except(vdf_fold(a).map, vdf_fold(a).map, x, y));
    let mb = ls.subrange(m + 2, f);
    assert forall|i: int| 0 <= i < mb.len() implies plain_body_line(#[trigger] mb[i]) by {
        assert(mb[i] == ls[m + 2 + i]);
    }
    assert forall|i: int| 0 <= i < mb.len() && rewrites(#[trigger] mb[i]) implies betakey_entry(
        mb[i],
    ) by {
        assert(mb[i] == ls[m + 2 + i]);
    }
    assert forall|i: int, j: int| 0 <= i < mb.len() && 0 <= j < mb[i].len() implies #[trigger] mb[i][j]
        != '\n' by {
        assert(mb[i] == ls[m + 2 + i]);
    }
    lemma_vdf_body_agree_except(a, a, mb, key, x, y);
    let r1 = a + body_out(mb, key);
    lemma_inserted_agree(a + mb, r1, mb, key, x, y);
    let r2 = r1 + inserted(mb, key);
    let seg1 = ls.subrange(f, u + 2);
    lemma_vdf_same_lines_except(a + mb, r2, seg1, x, y);
    assert(a + mb + seg1 =~= ls.take(u + 2));
    assert(r2 =~= a + (body_out(mb, key) + inserted(mb, key)));
}

/// Reading such a manifest before and after the rewrite gives the same keys,
/// with the same values, apart from the two `betakey` keys.
#[verifier::rlimit(100)]
proof fn lemma_mf_agree(c: Seq<char>, m: int, f: int, u: int, e: int, key: Seq<char>)
    requires
        two_sections_mounted_first_at(c, m, f, u, e),
        writable_key(key),
    ensures
        agree_except(
            vdf_fold(lines(c)).map,
            vdf_fold(rewritten_lines_mounted_first(c, m, f, u, e, key)).map,
            user_betakey_key(),
            mounted_betakey_key(),
        ),
{
    let ls = lines(c);
    let x = user_betakey_key();
    let y = mounted_betakey_key();
    lemma_mf_stacks(c, m, f, u, e);
    lemma_lines_no_newline(c);
    lemma_mf_agree_head(c, m, f, u, e, key);
    let mb = ls.subrange(m + 2, f);
    let r3 = ls.take(m + 2) + (body_out(mb, key) + inserted(mb, key)) + ls.subrange(f, u + 2);
    let body = ls.subrange(u + 2, e);
    assert forall|i: int| 0 <= i < body.len() implies plain_body_line(#[trigger] body[i]) by {
        assert(body[i] == ls[u + 2 + i]);
    }
    assert forall|i: int| 0 <= i < body.len() && rewrites(#[trigger] body[i]) implies betakey_entry(
        body[i],
    ) by {
        assert(body[i] == ls[u + 2 + i]);
    }
    assert forall|i: int, j: int| 0 <= i < body.len() && 0 <= j < body[i].len() implies #[trigger] body[i][j]
        != '\n' by {
        assert(body[i] == ls[u + 2 + i]);
    }
    lemma_vdf_body_agree_except(ls.take(u + 2), r3, body, key, x, y);
    let r4 = r3 + body_out(body, key);
    lemma_inserted_agree(ls.take(u + 2) + body, r4, body, key, x, y);
    let r5 = r4 + inserted(body, key);
    let seg2 = ls.subrange(e, ls.len() as int);
    lemma_vdf_same_lines_except(ls.take(u + 2) + body, r5, seg2, x, y);
    assert(ls.take(u + 2) + body + seg2 =~= ls);
    lemma_mf_rewritten_split(c, m, f, u, e, key);
    assert(r5 + seg2 =~= ls.take(m + 2) + (body_out(mb, key) + inserted(mb, key)) + ls.subrange(
        f,
        u + 2,
    ) + (body_out(body, key) + inserted(body, key)) + ls.subrange(e, ls.len() as int));
}

/// The rewritten lines of such a manifest, cut at its sections.
proof fn lemma_mf_rewritten_split(c: Seq<char>, m: int, f: int, u: int, e: int, key: Seq<char>)
    requires
        mounted_user_at(c, m, f, u, e),
    ensures
        rewritten_lines_mounted_first(c, m, f, u, e, key) == lines(c).take(m + 2) + (body_out(
            lines(c).subrange(m + 2, f),
            key,
        ) + inserted(lines(c).subrange(m + 2, f), key)) + lines(c).subrange(f, u + 2) + (body_out(
            lines(c).subrange(u + 2, e),
            key,
        ) + inserted(lines(c).subrange(u + 2, e), key)) + lines(c).subrange(e, lines(c).len() as int),
{
    let ls = lines(c);
    assert(ls.take(m) + seq![ls[m], ls[m + 1]] =~= ls.take(m + 2));
    assert(ls.subrange(f, u + 2) =~= seq![ls[f]] + ls.subrange(f + 1, u) + seq![ls[u], ls[u + 1]]);
    assert(ls.subrange(e, ls.len() as int) =~= seq![ls[e]] + ls.skip(e + 1));
    assert(rewritten_lines_mounted_first(c, m, f, u, e, key) =~= ls.take(m + 2) + (body_out(
        ls.subrange(m + 2, f),
        key,
    ) + inserted(ls.subrange(m + 2, f), key)) + ls.subrange(f, u + 2) + (body_out(
        ls.subrange(u + 2, e),
        key,
    ) + inserted(ls.subrange(u + 2, e), key)) + ls.subrange(e, ls.len() as int));
}

/// Setting the `betakey` of a manifest whose `MountedConfig` section comes
/// before its `UserConfig` section, as `two_sections_mounted_first_at`
/// describes it, writes the key into both sections and leaves every other
/// key the reader finds, and its value, as it was.
pub proof fn law_betakey_two_sections_mounted_first(
    c: Seq<char>,
    key: Seq<char>,
    m: int,
    f: int,
    u: int,
    e: int,
)
    requires
        two_sections_mounted_first_at(c, m, f, u, e),
        writable_key(key),
    ensures
        acf_rewritable(c, key),
        parse_vdf(acf_with_betakey(c, key)).dom().contains("appstate.userconfig.betakey"@),
        parse_vdf(acf_with_betakey(c, key))["appstate.userconfig.betakey"@] == key,
        parse_vdf(acf_with_betakey(c, key)).dom().contains("appstate.mountedconfig.betakey"@),
        parse_vdf(acf_with_betakey(c, key))["appstate.mountedconfig.betakey"@] == key,
        forall|k: Seq<char>|
            k != "appstate.userconfig.betakey"@ && k != "appstate.mountedconfig.betakey"@ ==> (
            #[trigger] parse_vdf(acf_with_betakey(c, key)).dom().contains(k) <==> parse_vdf(
                c,
            ).dom().contains(k)) && (parse_vdf(c).dom().contains(k) ==> parse_vdf(
                acf_with_betakey(c, key),
            )[k] == parse_vdf(c)[k]),
{
    law_betakey_reads_back_mounted_first(c, key, m, f, u, e);
    lemma_out_lines_mounted_first(c, m, f, u, e, key);
    lemma_mf_mounted_key(c, m, f, u, e, key);
    lemma_mf_agree(c, m, f, u, e, key);
}

/// The lines of a manifest cut at two sections, each a header line, an
/// opening brace line, a body and a closing brace line.
proof fn lemma_two_blocks(ls: Seq<Seq<char>>, a: int, b: int, c: int, d: int)
    requires
        0 <= a && a + 1 < b < c && c + 1 < d < ls.len(),
    ensures
        ls == ls.take(a) + seq![ls[a], ls[a + 1]] + ls.subrange(a + 2, b) + seq![ls[b]]
            + ls.subrange(b + 1, c) + seq![ls[c], ls[c + 1]] + ls.subrange(c + 2, d) + seq![ls[d]]
            + ls.skip(d + 1),
{
    assert(ls =~= ls.take(a) + seq![ls[a], ls[a + 1]] + ls.subrange(a + 2, b) + seq![ls[b]]
        + ls.subrange(b + 1, c) + seq![ls[c], ls[c + 1]] + ls.subrange(c + 2, d) + seq![ls[d]]
        + ls.skip(d + 1));
}

} // verus!
