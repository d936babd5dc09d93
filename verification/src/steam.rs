//! Steam app manifests: the branch a manifest selects, the flat VDF reader,
//! the `betakey` rewriter, and the download state a manifest records.

use vstd::prelude::*;
use crate::str_map::{text_view, StrMap};
use crate::text::{
    join, line_ranges, lines, lower_text, range_texts, ranges_within, split_char, split_ranges,
    str_chars, string_of, texts, to_lowercase, trim, trim_quotes, trim_range, push_text,
    contains_text, range_contains,
    pop_char, push_char, lemma_lines_last, joined_lines, lemma_joined_lines_of,
    no_crlf, lemma_trim_start_prefix, lemma_first_of, strip_pred, trim_start_by,
    trim_end_by, is_white_space, strip_cr, ascii_lower, ascii_lower_char,
};
use vstd::string::StringExecFns;
use vstd::utf8::is_ascii_chars;

verus! {

/// A Satisfactory release branch.
#[derive(Debug, Clone, Copy, PartialEq, Eq, Structural)]
pub enum Branch {
    Stable,
    Experimental,
}

/// Errors of the manifest logic.
#[derive(Debug, Clone)]
pub enum SteamError {
    /// The (lowercased) branch name is not one of the known branches.
    UnknownBranch(String),
    /// The manifest has no `installdir` entry.
    InstallDirNotFound,
}

/// The branch that a lowercased branch name denotes.
pub open spec fn branch_of(lower: Seq<char>) -> Option<Branch> {
    if lower == "stable"@ || lower == "public"@ || lower == Seq::<char>::empty() {
        Some(Branch::Stable)
    } else if lower == "experimental"@ {
        Some(Branch::Experimental)
    } else {
        None
    }
}

/// What parsing a name whose lowercase form is `lower` gives.
pub open spec fn parse_branch_result(lower: Seq<char>, r: Result<Branch, SteamError>) -> bool {
    match r {
        Ok(b) => branch_of(lower) == Some(b),
        Err(SteamError::UnknownBranch(t)) => branch_of(lower) is None && t@ == lower,
        Err(_) => false,
    }
}

/// The name a branch is shown and stored under.
pub open spec fn branch_name(b: Branch) -> Seq<char> {
    match b {
        Branch::Stable => "stable"@,
        Branch::Experimental => "experimental"@,
    }
}

/// The `betakey` value that selects a branch in a manifest.
pub open spec fn branch_betakey(b: Branch) -> Seq<char> {
    match b {
        Branch::Stable => Seq::<char>::empty(),
        Branch::Experimental => "experimental"@,
    }
}

/// A branch's stored name and its `betakey` are their own lowercase forms,
/// and both denote the branch again.
pub proof fn law_branch_names_denote_branch(b: Branch)
    ensures
        lower_text(branch_name(b)) == branch_name(b),
        lower_text(branch_betakey(b)) == branch_betakey(b),
        branch_of(lower_text(branch_name(b))) == Some(b),
        branch_of(lower_text(branch_betakey(b))) == Some(b),
{
    reveal_strlit("stable");
    reveal_strlit("public");
    reveal_strlit("experimental");
    assert("stable"@.len() == 6);
    assert("public"@.len() == 6);
    assert("experimental"@.len() == 12);
    lemma_lower_fixed("stable"@);
    lemma_lower_fixed("experimental"@);
    lemma_lower_fixed(Seq::<char>::empty());
}

/// Text of ASCII characters other than `'A'..='Z'` is its own lowercase form.
proof fn lemma_lower_fixed(s: Seq<char>)
    requires
        forall|i: int| 0 <= i < s.len() ==> 'a' <= #[trigger] s[i] <= 'z',
    ensures
        lower_text(s) == s,
{
    assert(is_ascii_chars(s));
    assert(ascii_lower(s) =~= s);
}

/// Parsing a branch name ignores ASCII case: an ASCII name and its lowercase
/// form have the same lowercase form, so `Branch::from_str` gives the same
/// result for both.
pub proof fn law_branch_parse_ignores_case(s: Seq<char>)
    requires
        is_ascii_chars(s),
    ensures
        lower_text(lower_text(s)) == lower_text(s),
        branch_of(lower_text(lower_text(s))) == branch_of(lower_text(s)),
{
    let l = ascii_lower(s);
    assert forall|i: int| 0 <= i < l.len() implies '\0' <= #[trigger] l[i] <= '\u{7f}' by {
        assert(l[i] == ascii_lower_char(s[i]));
    }
    assert(is_ascii_chars(l));
    assert forall|i: int| 0 <= i < l.len() implies #[trigger] ascii_lower_char(l[i]) == l[i] by {
        assert(l[i] == ascii_lower_char(s[i]));
    }
    assert(ascii_lower(l) =~= l);
}

/// The two branches have different names.
pub proof fn lemma_branch_names_differ()
    ensures
        branch_name(Branch::Stable) != branch_name(Branch::Experimental),
{
    reveal_strlit("stable");
    reveal_strlit("experimental");
    assert(branch_name(Branch::Stable).len() != branch_name(Branch::Experimental).len());
}

impl Branch {
    /// The branch for an already lowercased name: `stable`, `public` and the
    /// empty name are the stable branch, `experimental` the experimental one.
    pub fn from_lowercase(lower: &str) -> (r: Result<Branch, SteamError>)
        ensures
            parse_branch_result(lower@, r),
    {
        let l = String::from_str(lower);
        if l == String::from_str("stable") || l == String::from_str("public") || l == String::new() {
            Ok(Branch::Stable)
        } else if l == String::from_str("experimental") {
            Ok(Branch::Experimental)
        } else {
            Err(SteamError::UnknownBranch(l))
        }
    }

    /// The branch named by `s`, compared without regard to case.
    pub fn from_str(s: &str) -> (r: Result<Branch, SteamError>)
        ensures
            parse_branch_result(lower_text(s@), r),
    {
        let lower = to_lowercase(s);
        Branch::from_lowercase(lower.as_str())
    }

    /// The `betakey` that selects this branch in a manifest.
    pub fn betakey(&self) -> (r: &'static str)
        ensures
            r@ == branch_betakey(*self),
    {
        proof {
            reveal_strlit("");
        }
        match self {
            Branch::Stable => "",
            Branch::Experimental => "experimental",
        }
    }

    /// The branch's name, `stable` or `experimental`.
    pub fn name(&self) -> (r: &'static str)
        ensures
            r@ == branch_name(*self),
    {
        match self {
            Branch::Stable => "stable",
            Branch::Experimental => "experimental",
        }
    }

    /// The branch's name as an owned string.
    pub fn to_string(&self) -> (r: String)
        ensures
            r@ == branch_name(*self),
    {
        String::from_str(self.name())
    }
}


/// The non-empty strings of `s`, in order.
pub open spec fn keep_nonempty(s: Seq<Seq<char>>) -> Seq<Seq<char>>
    decreases s.len(),
{
    if s.len() == 0 {
        seq![]
    } else if s.last().len() > 0 {
        keep_nonempty(s.drop_last()).push(s.last())
    } else {
        keep_nonempty(s.drop_last())
    }
}

/// The fields of a VDF line: its tab-separated pieces trimmed of white space,
/// the empty ones (runs of tabs) left out.
pub open spec fn vdf_fields(line: Seq<char>) -> Seq<Seq<char>> {
    keep_nonempty(split_char(trim(line), '\t').map_values(|p: Seq<char>| trim(p)))
}

/// The tokens of a VDF line: its fields with their surrounding quotes
/// removed, so that `""` is an empty token.
pub open spec fn vdf_tokens(line: Seq<char>) -> Seq<Seq<char>> {
    vdf_fields(line).map_values(|p: Seq<char>| trim_quotes(p))
}

/// What one line of a VDF file means to the flat reader.
pub enum VdfKind {
    /// A `{` line.
    Open,
    /// A `}` line: the innermost section ends.
    Close,
    /// A `"key" "value"` line, with the key lowercased.
    Entry(Seq<char>, Seq<char>),
    /// A lone `"name"` line: a section header, lowercased.
    Section(Seq<char>),
    /// Any other line.
    Ignored,
}

/// The meaning of one line.
pub open spec fn vdf_kind(line: Seq<char>) -> VdfKind {
    let t = trim(line);
    if t == seq!['{'] {
        VdfKind::Open
    } else if t == seq!['}'] {
        VdfKind::Close
    } else {
        let toks = vdf_tokens(line);
        if toks.len() == 2 {
            VdfKind::Entry(lower_text(toks[0]), toks[1])
        } else if toks.len() == 1 {
            VdfKind::Section(lower_text(toks[0]))
        } else {
            VdfKind::Ignored
        }
    }
}

/// The reader's state: the open sections and the entries read so far.
pub struct VdfState {
    pub stack: Seq<Seq<char>>,
    pub map: Map<Seq<char>, Seq<char>>,
}

/// The full key of `key` inside the sections `stack`: the section names and
/// the key joined with dots.
pub open spec fn vdf_key(stack: Seq<Seq<char>>, key: Seq<char>) -> Seq<char> {
    if stack.len() == 0 {
        key
    } else {
        join(stack, seq!['.']) + seq!['.'] + key
    }
}

/// The state after a line of the given meaning.
pub open spec fn vdf_apply(st: VdfState, k: VdfKind) -> VdfState {
    match k {
        VdfKind::Open => st,
        VdfKind::Close => VdfState {
            stack: if st.stack.len() > 0 {
                st.stack.drop_last()
            } else {
                st.stack
            },
            map: st.map,
        },
        VdfKind::Entry(key, value) => VdfState {
            stack: st.stack,
            map: st.map.insert(vdf_key(st.stack, key), value),
        },
        VdfKind::Section(name) => VdfState { stack: st.stack.push(name), map: st.map },
        VdfKind::Ignored => st,
    }
}

/// The state after reading `ls` from the start.
pub open spec fn vdf_fold(ls: Seq<Seq<char>>) -> VdfState
    decreases ls.len(),
{
    if ls.len() == 0 {
        VdfState { stack: seq![], map: Map::empty() }
    } else {
        vdf_apply(vdf_fold(ls.drop_last()), vdf_kind(ls.last()))
    }
}

/// The flat key-value map of a VDF text.
pub open spec fn parse_vdf(content: Seq<char>) -> Map<Seq<char>, Seq<char>> {
    vdf_fold(lines(content)).map
}

/// One line of a VDF file, classified, with its key or section name lowercased.
#[derive(Debug)]
pub enum VdfLine {
    Open,
    Close,
    Entry(String, String),
    Section(String),
    Ignored,
}

impl View for VdfLine {
    type V = VdfKind;

    open spec fn view(&self) -> VdfKind {
        match self {
            VdfLine::Open => VdfKind::Open,
            VdfLine::Close => VdfKind::Close,
            VdfLine::Entry(k, v) => VdfKind::Entry(k@, v@),
            VdfLine::Section(n) => VdfKind::Section(n@),
            VdfLine::Ignored => VdfKind::Ignored,
        }
    }
}

/// The ranges of the VDF tokens of the line `v[start..end]`.
pub fn vdf_token_ranges(v: &[char], start: usize, end: usize) -> (r: Vec<(usize, usize)>)
    requires
        start <= end <= v@.len(),
    ensures
        ranges_within(r@, start as int, end as int),
        range_texts(v@, r@) == vdf_tokens(v@.subrange(start as int, end as int)),
{
    let (ts, te) = trim_range(v, start, end, false);
    let pieces = split_ranges(v, ts, te, '\t');
    let ghost mapped = split_char(v@.subrange(ts as int, te as int), '\t').map_values(
        |p: Seq<char>| trim(p),
    );
    let mut r: Vec<(usize, usize)> = Vec::new();
    let mut i: usize = 0;
    while i < pieces.len()
        invariant
            start <= ts <= te <= end <= v@.len(),
            ranges_within(pieces@, ts as int, te as int),
            range_texts(v@, pieces@) == split_char(v@.subrange(ts as int, te as int), '\t'),
            mapped == split_char(v@.subrange(ts as int, te as int), '\t').map_values(
                |p: Seq<char>| trim(p),
            ),
            i <= pieces@.len(),
            ranges_within(r@, start as int, end as int),
            range_texts(v@, r@) == keep_nonempty(mapped.take(i as int)).map_values(
                |p: Seq<char>| trim_quotes(p),
            ),
        decreases pieces@.len() - i,
    {
        let (pa, pb) = pieces[i];
        assert(range_texts(v@, pieces@)[i as int] == v@.subrange(pa as int, pb as int));
        let (a1, b1) = trim_range(v, pa, pb, false);
        let (a2, b2) = trim_range(v, a1, b1, true);
        assert(mapped[i as int] == v@.subrange(a1 as int, b1 as int));
        assert(mapped.take(i + 1).drop_last() =~= mapped.take(i as int));
        assert(mapped.take(i + 1).last() == mapped[i as int]);
        if a1 < b1 {
            assert(range_texts(v@, r@.push((a2, b2))) =~= range_texts(v@, r@).push(
                v@.subrange(a2 as int, b2 as int),
            ));
            assert(keep_nonempty(mapped.take(i + 1)) == keep_nonempty(mapped.take(i as int)).push(
                mapped[i as int],
            ));
            assert(keep_nonempty(mapped.take(i + 1)).map_values(|p: Seq<char>| trim_quotes(p))
                =~= keep_nonempty(mapped.take(i as int)).map_values(|p: Seq<char>| trim_quotes(p)).push(
                trim_quotes(mapped[i as int]),
            ));
            r.push((a2, b2));
        }
        i += 1;
    }
    assert(mapped.take(i as int) =~= mapped);
    assert(v@.subrange(start as int, end as int).subrange(0, 0) == Seq::<char>::empty());
    r
}

/// Classifies the line `v[start..end]`.
pub fn vdf_line(v: &[char], start: usize, end: usize) -> (l: VdfLine)
    requires
        start <= end <= v@.len(),
    ensures
        l@ == vdf_kind(v@.subrange(start as int, end as int)),
{
    let (ts, te) = trim_range(v, start, end, false);
    if te - ts == 1 && v[ts] == '{' {
        assert(v@.subrange(ts as int, te as int) =~= seq!['{']);
        return VdfLine::Open;
    }
    if te - ts == 1 && v[ts] == '}' {
        assert(v@.subrange(ts as int, te as int) =~= seq!['}']);
        assert(seq!['}'][0] != seq!['{'][0]);
        return VdfLine::Close;
    }
    assert(v@.subrange(ts as int, te as int) != seq!['{']) by {
        if te - ts == 1 {
            assert(v@.subrange(ts as int, te as int)[0] == v@[ts as int]);
        }
    }
    assert(v@.subrange(ts as int, te as int) != seq!['}']) by {
        if te - ts == 1 {
            assert(v@.subrange(ts as int, te as int)[0] == v@[ts as int]);
        }
    }
    let toks = vdf_token_ranges(v, start, end);
    if toks.len() == 2 {
        let (ka, kb) = toks[0];
        let (va, vb) = toks[1];
        let key = string_of(v, ka, kb);
        let value = string_of(v, va, vb);
        assert(range_texts(v@, toks@)[0] == key@);
        assert(range_texts(v@, toks@)[1] == value@);
        VdfLine::Entry(to_lowercase(key.as_str()), value)
    } else if toks.len() == 1 {
        let (ka, kb) = toks[0];
        let key = string_of(v, ka, kb);
        assert(range_texts(v@, toks@)[0] == key@);
        VdfLine::Section(to_lowercase(key.as_str()))
    } else {
        VdfLine::Ignored
    }
}

/// The flat VDF reader: the open sections and the entries read so far.
pub struct VdfReader {
    stack: Vec<String>,
    map: StrMap<String>,
}

impl VdfReader {
    /// The reader's state.
    pub closed spec fn state(&self) -> VdfState {
        VdfState { stack: texts(self.stack@), map: text_view(self.map@) }
    }

    /// A reader that has read nothing.
    pub fn new() -> (r: Self)
        ensures
            r.state() == (VdfState { stack: seq![], map: Map::empty() }),
    {
        let r = VdfReader { stack: Vec::new(), map: StrMap::new() };
        assert(r.state().stack =~= seq![]);
        assert(r.state().map =~= Map::empty());
        r
    }

    /// Takes in one classified line.
    pub fn apply(&mut self, line: VdfLine)
        ensures
            final(self).state() == vdf_apply(old(self).state(), line@),
    {
        match line {
            VdfLine::Open => {},
            VdfLine::Close => {
                let ghost before = self.stack@;
                let _ = self.stack.pop();
                proof {
                    if before.len() > 0 {
                        assert(texts(self.stack@) =~= texts(before).drop_last());
                    }
                }
            },
            VdfLine::Entry(key, value) => {
                let full = if self.stack.len() == 0 {
                    key
                } else {
                    let mut f = crate::text::join_strings(&self.stack, ".");
                    push_text(&mut f, ".");
                    push_text(&mut f, key.as_str());
                    proof {
                        reveal_strlit(".");
                        assert("."@ =~= seq!['.']);
                    }
                    assert(f@ =~= join(texts(self.stack@), seq!['.']) + seq!['.'] + key@);
                    f
                };
                let ghost fv = full@;
                let ghost m0 = self.map@;
                self.map.insert(full, value);
                assert(text_view(self.map@) =~= text_view(m0).insert(fv, value@));
            },
            VdfLine::Section(name) => {
                let ghost before = self.stack@;
                self.stack.push(name);
                assert(texts(self.stack@) =~= texts(before).push(name@));
            },
            VdfLine::Ignored => {},
        }
    }

    /// The entries read.
    pub fn finish(self) -> (m: StrMap<String>)
        ensures
            text_view(m@) == self.state().map,
    {
        self.map
    }
}

/// The flat key-value map of a VDF (appmanifest) text: each `"key" "value"`
/// line gives an entry whose key is the lowercased names of the enclosing
/// sections and the lowercased key, joined with dots.
pub fn parse_vdf_flat(content: &str) -> (m: StrMap<String>)
    ensures
        text_view(m@) == parse_vdf(content@),
{
    let v = str_chars(content);
    let ranges = line_ranges(v.as_slice());
    let mut reader = VdfReader::new();
    let mut i: usize = 0;
    while i < ranges.len()
        invariant
            v@ == content@,
            ranges_within(ranges@, 0, v@.len() as int),
            range_texts(v@, ranges@) == lines(v@),
            i <= ranges@.len(),
            reader.state() == vdf_fold(lines(v@).take(i as int)),
        decreases ranges@.len() - i,
    {
        let (a, b) = ranges[i];
        let line = vdf_line(v.as_slice(), a, b);
        reader.apply(line);
        proof {
            let ls = lines(v@);
            assert(ls.take(i + 1).drop_last() =~= ls.take(i as int));
            assert(ls.take(i + 1).last() == v@.subrange(a as int, b as int));
        }
        i += 1;
    }
    assert(lines(v@).take(i as int) =~= lines(v@));
    reader.finish()
}


/// The `betakey` a manifest's entries select: the user setting first, then
/// the mounted one, else none.
pub open spec fn manifest_betakey(m: Map<Seq<char>, Seq<char>>) -> Seq<char> {
    if m.dom().contains("appstate.userconfig.betakey"@) {
        m["appstate.userconfig.betakey"@]
    } else if m.dom().contains("appstate.mountedconfig.betakey"@) {
        m["appstate.mountedconfig.betakey"@]
    } else {
        Seq::<char>::empty()
    }
}

/// The branch that the manifest text `content` selects.
pub fn detect_branch(content: &str) -> (r: Result<Branch, SteamError>)
    ensures
        parse_branch_result(lower_text(manifest_betakey(parse_vdf(content@))), r),
{
    let vdf = parse_vdf_flat(content);
    let ghost m = parse_vdf(content@);
    proof {
        reveal_strlit("");
    }
    let key: &str = match vdf.get("appstate.userconfig.betakey") {
        Some(k) => k.as_str(),
        None => match vdf.get("appstate.mountedconfig.betakey") {
            Some(k) => k.as_str(),
            None => "",
        },
    };
    assert(key@ == manifest_betakey(m));
    Branch::from_str(key)
}

/// Whether `c` is an ASCII decimal digit.
pub open spec fn is_digit(c: char) -> bool {
    '0' <= c && c <= '9'
}

/// The value of a string of decimal digits.
pub open spec fn decimal_value(d: Seq<char>) -> int
    decreases d.len(),
{
    if d.len() == 0 {
        0
    } else {
        decimal_value(d.drop_last()) * 10 + ((d.last() as int) - ('0' as int))
    }
}

/// The text after an optional leading `+`.
pub open spec fn unsigned_digits(s: Seq<char>) -> Seq<char> {
    if s.len() > 0 && s[0] == '+' {
        s.drop_first()
    } else {
        s
    }
}

/// Every character of `d` is a decimal digit.
pub open spec fn all_digits(d: Seq<char>) -> bool {
    forall|i: int| 0 <= i < d.len() ==> is_digit(#[trigger] d[i])
}

/// What `u64::from_str` gives: an optional `+`, then at least one decimal
/// digit, with a value that fits in 64 bits.
pub open spec fn parse_u64_spec(s: Seq<char>) -> Option<u64> {
    let d = unsigned_digits(s);
    if d.len() > 0 && all_digits(d) && decimal_value(d) <= u64::MAX {
        Some(decimal_value(d) as u64)
    } else {
        None
    }
}

proof fn lemma_decimal_prefix(d: Seq<char>, i: int)
    requires
        0 <= i <= d.len(),
        forall|k: int| 0 <= k < d.len() ==> is_digit(#[trigger] d[k]),
    ensures
        0 <= decimal_value(d.take(i)) <= decimal_value(d),
    decreases d.len(),
{
    if i == d.len() {
        assert(d.take(i) =~= d);
        if d.len() > 0 {
            assert forall|k: int| 0 <= k < d.drop_last().len() implies is_digit(#[trigger] d.drop_last()[k]) by {
                assert(d.drop_last()[k] == d[k]);
            }
            lemma_decimal_prefix(d.drop_last(), d.len() - 1);
        }
    } else {
        assert forall|k: int| 0 <= k < d.drop_last().len() implies is_digit(#[trigger] d.drop_last()[k]) by {
            assert(d.drop_last()[k] == d[k]);
        }
        lemma_decimal_prefix(d.drop_last(), i);
        assert(d.drop_last().take(i) =~= d.take(i));
        lemma_decimal_prefix(d.drop_last(), d.len() - 1);
        assert(d.drop_last().take(d.len() - 1) =~= d.drop_last());
    }
}

/// `s` read as a `u64`, as `str::parse::<u64>` reads it.
pub fn parse_u64(s: &str) -> (r: Option<u64>)
    ensures
        r == parse_u64_spec(s@),
{
    let v = str_chars(s);
    let start: usize = if v.len() > 0 && v[0] == '+' {
        1
    } else {
        0
    };
    let ghost d = v@.subrange(start as int, v@.len() as int);
    assert(d =~= unsigned_digits(s@));
    if start == v.len() {
        return None;
    }
    let mut i = start;
    let mut acc: u64 = 0;
    while i < v.len()
        invariant
            start <= i <= v@.len(),
            v@ == s@,
            d == unsigned_digits(s@),
            d == v@.subrange(start as int, v@.len() as int),
            forall|k: int| start <= k < i ==> is_digit(#[trigger] v@[k]),
            acc == decimal_value(d.take(i - start)),
        decreases v@.len() - i,
    {
        let c = v[i];
        if !('0' <= c && c <= '9') {
            assert(!is_digit(d[i - start]));
            return None;
        }
        assert(d.take(i - start + 1).drop_last() =~= d.take(i - start));
        let digit = (c as u32 - '0' as u32) as u64;
        let next = match acc.checked_mul(10) {
            Some(m) => m.checked_add(digit),
            None => None,
        };
        match next {
            Some(n) => {
                acc = n;
            },
            None => {
                proof {
                    let j = i - start + 1;
                    let rest = v@.subrange(start as int, i + 1);
                    assert forall|k: int| 0 <= k < rest.len() implies is_digit(#[trigger] rest[k]) by {
                        assert(rest[k] == v@[start + k]);
                    }
                    assert(rest =~= d.take(j));
                    if all_digits(d) {
                        lemma_decimal_prefix(d, j);
                    }
                }
                return None;
            },
        }
        i += 1;
    }
    assert(d.take(i - start) =~= d);
    Some(acc)
}

/// The number a manifest field holds; a missing or unreadable field counts as 0.
pub open spec fn field_u64(m: Map<Seq<char>, Seq<char>>, key: Seq<char>) -> u64 {
    if m.dom().contains(key) {
        match parse_u64_spec(m[key]) {
            Some(n) => n,
            None => 0,
        }
    } else {
        0
    }
}

fn read_u64_field(vdf: &StrMap<String>, key: &str) -> (r: u64)
    ensures
        r == field_u64(text_view(vdf@), key@),
{
    match vdf.get(key) {
        Some(text) => match parse_u64(text.as_str()) {
            Some(n) => n,
            None => 0,
        },
        None => 0,
    }
}

/// Whether a manifest's entries show a download or update under way: Steam
/// has queued a different build, or bytes are still to come.
pub open spec fn download_pending(m: Map<Seq<char>, Seq<char>>) -> bool {
    let to_download = field_u64(m, "appstate.bytestodownload"@);
    let downloaded = field_u64(m, "appstate.bytesdownloaded"@);
    let build = field_u64(m, "appstate.buildid"@);
    let target = field_u64(m, "appstate.targetbuildid"@);
    (target != 0 && target != build) || (to_download > 0 && downloaded < to_download)
}

/// Whether the manifest text records a pending download or update.
pub fn is_download_pending(content: &str) -> (b: bool)
    ensures
        b == download_pending(parse_vdf(content@)),
{
    let vdf = parse_vdf_flat(content);
    let to_download = read_u64_field(&vdf, "appstate.bytestodownload");
    let downloaded = read_u64_field(&vdf, "appstate.bytesdownloaded");
    let build_id = read_u64_field(&vdf, "appstate.buildid");
    let target_build = read_u64_field(&vdf, "appstate.targetbuildid");
    (target_build != 0 && target_build != build_id) || (to_download > 0 && downloaded < to_download)
}

/// A process named `name` (lowercased) is the Steam client: its name
/// mentions `steam` but not `steamvr`.
pub open spec fn is_steam_name(lower: Seq<char>) -> bool {
    contains_text(lower, "steam"@) && !contains_text(lower, "steamvr"@)
}

/// Whether a process named `name` is the Steam client.
pub fn is_steam_process(name: &str) -> (b: bool)
    ensures
        b == is_steam_name(lower_text(name@)),
{
    let lower = str_chars(to_lowercase(name).as_str());
    let steam = str_chars("steam");
    let steamvr = str_chars("steamvr");
    assert(lower@.subrange(0, lower@.len() as int) =~= lower@);
    range_contains(lower.as_slice(), 0, lower.len(), steam.as_slice()) && !range_contains(
        lower.as_slice(),
        0,
        lower.len(),
        steamvr.as_slice(),
    )
}

/// Whether Steam is among the running processes named `names`.
pub fn any_steam_process(names: &Vec<String>) -> (b: bool)
    ensures
        b == exists|i: int| 0 <= i < names@.len() && is_steam_name(lower_text(#[trigger] names@[i]@)),
{
    let mut i: usize = 0;
    while i < names.len()
        invariant
            i <= names@.len(),
            forall|j: int| 0 <= j < i ==> !is_steam_name(lower_text(#[trigger] names@[j]@)),
        decreases names@.len() - i,
    {
        if is_steam_process(names[i].as_str()) {
            return true;
        }
        i += 1;
    }
    false
}

/// The SteamCMD arguments that follow `+force_install_dir <dir>` when
/// downloading `branch` as `username`: log in, update and validate the app
/// (on the beta branch for experimental), then quit.
pub open spec fn steamcmd_tail(branch: Branch, username: Seq<char>) -> Seq<Seq<char>> {
    seq!["+login"@, username, "+app_update"@, "526870"@] + (if branch == Branch::Experimental {
        seq!["-beta"@, "experimental"@]
    } else {
        seq![]
    }) + seq!["validate"@, "+quit"@]
}

/// The SteamCMD arguments that follow `+force_install_dir <dir>`.
pub fn steamcmd_args(branch: &Branch, username: &str) -> (r: Vec<String>)
    ensures
        texts(r@) == steamcmd_tail(*branch, username@),
{
    let mut r: Vec<String> = Vec::new();
    r.push(String::from_str("+login"));
    r.push(String::from_str(username));
    r.push(String::from_str("+app_update"));
    r.push(String::from_str("526870"));
    if *branch == Branch::Experimental {
        r.push(String::from_str("-beta"));
        r.push(String::from_str("experimental"));
    }
    r.push(String::from_str("validate"));
    r.push(String::from_str("+quit"));
    assert(texts(r@) =~= steamcmd_tail(*branch, username@));
    r
}

/// A download is pending exactly when Steam has queued a build other than
/// the installed one (a non-zero `TargetBuildID` that differs from `buildid`)
/// or fewer bytes were downloaded than are to be downloaded. In particular a
/// manifest that reached its target build (or names none) and downloaded
/// every byte it was to download has nothing pending.
pub proof fn law_download_pending(m: Map<Seq<char>, Seq<char>>)
    ensures
        field_u64(m, "appstate.bytesdownloaded"@) < field_u64(m, "appstate.bytestodownload"@)
            ==> download_pending(m),
        field_u64(m, "appstate.targetbuildid"@) != 0 && field_u64(m, "appstate.targetbuildid"@)
            != field_u64(m, "appstate.buildid"@) ==> download_pending(m),
        (field_u64(m, "appstate.targetbuildid"@) == 0 || field_u64(m, "appstate.targetbuildid"@)
            == field_u64(m, "appstate.buildid"@)) && field_u64(m, "appstate.bytesdownloaded"@)
            >= field_u64(m, "appstate.bytestodownload"@) ==> !download_pending(m),
{
}

/// A process is the Steam client exactly when its lowercased name mentions
/// `steam` and does not mention `steamvr`: so `steam` itself is, any name
/// mentioning `steamvr` is not, and a name without `steam` is not.
pub proof fn law_steam_process_names(lower: Seq<char>)
    ensures
        contains_text(lower, "steam"@) && !contains_text(lower, "steamvr"@) ==> is_steam_name(lower),
        contains_text(lower, "steamvr"@) ==> !is_steam_name(lower),
        !contains_text(lower, "steam"@) ==> !is_steam_name(lower),
        is_steam_name("steam"@),
{
    reveal_strlit("steam");
    reveal_strlit("steamvr");
    assert(crate::text::occurs_at("steam"@, "steam"@, 0)) by {
        assert("steam"@.subrange(0, 5) =~= "steam"@);
    }
    assert forall|i: int| !crate::text::occurs_at("steam"@, "steamvr"@, i) by {}
}

/// The SteamCMD arguments log in as the user, update app 526870, validate
/// and quit; the experimental branch is asked for with `-beta experimental`,
/// and for the stable branch no argument but the user name can be `-beta`.
pub proof fn law_steamcmd_branch_args(branch: Branch, username: Seq<char>)
    ensures
        steamcmd_tail(branch, username)[0] == "+login"@,
        steamcmd_tail(branch, username)[1] == username,
        steamcmd_tail(branch, username)[2] == "+app_update"@,
        steamcmd_tail(branch, username)[3] == "526870"@,
        steamcmd_tail(branch, username).last() == "+quit"@,
        branch == Branch::Experimental ==> exists|i: int|
            0 <= i && i + 1 < steamcmd_tail(branch, username).len() && #[trigger] steamcmd_tail(
                branch,
                username,
            )[i] == "-beta"@ && steamcmd_tail(branch, username)[i + 1] == "experimental"@,
        branch == Branch::Stable ==> forall|i: int|
            0 <= i < steamcmd_tail(branch, username).len() && i != 1 ==> #[trigger] steamcmd_tail(
                branch,
                username,
            )[i] != "-beta"@,
{
    reveal_strlit("-beta");
    reveal_strlit("+login");
    reveal_strlit("+app_update");
    reveal_strlit("526870");
    reveal_strlit("validate");
    reveal_strlit("+quit");
    reveal_strlit("experimental");
    let t = steamcmd_tail(branch, username);
    if branch == Branch::Experimental {
        assert(t[4] == "-beta"@ && t[5] == "experimental"@);
    } else {
        assert(t.len() == 6);
        assert forall|i: int| 0 <= i < t.len() && i != 1 implies #[trigger] t[i] != "-beta"@ by {
            if i == 0 {
                assert(t[0][0] != "-beta"@[0]);
            } else if i == 2 {
                assert(t[2][0] != "-beta"@[0]);
            } else if i == 3 {
                assert(t[3].len() == 6);
            } else if i == 4 {
                assert(t[4].len() == 8);
            } else {
                assert(t[5][0] != "-beta"@[0]);
            }
        }
    }
}

/// The branch names `Branch::from_str` accepts, once lowercased: `stable`,
/// `public` and the empty name give the stable branch, `experimental` gives
/// the experimental branch, and nothing else is a branch.
pub proof fn law_branch_of_names(lower: Seq<char>)
    ensures
        branch_of(lower) == Some(Branch::Stable) <==> lower == "stable"@ || lower == "public"@
            || lower.len() == 0,
        branch_of(lower) == Some(Branch::Experimental) <==> lower == "experimental"@,
        branch_of(lower) is None <==> lower != "stable"@ && lower != "public"@ && lower.len() != 0
            && lower != "experimental"@,
{
    reveal_strlit("stable");
    reveal_strlit("public");
    reveal_strlit("experimental");
    assert("stable"@.len() == 6 && "public"@.len() == 6 && "experimental"@.len() == 12);
    if lower.len() == 0 {
        assert(lower =~= Seq::<char>::empty());
    }
}

/// The branch a manifest selects is read from the user `betakey` when the
/// manifest has one, else from the mounted `betakey`, else it is empty.
pub proof fn law_manifest_betakey(m: Map<Seq<char>, Seq<char>>)
    ensures
        m.dom().contains("appstate.userconfig.betakey"@) ==> manifest_betakey(m)
            == m["appstate.userconfig.betakey"@],
        !m.dom().contains("appstate.userconfig.betakey"@) && m.dom().contains(
            "appstate.mountedconfig.betakey"@,
        ) ==> manifest_betakey(m) == m["appstate.mountedconfig.betakey"@],
        !m.dom().contains("appstate.userconfig.betakey"@) && !m.dom().contains(
            "appstate.mountedconfig.betakey"@,
        ) ==> manifest_betakey(m).len() == 0,
{
}

/// Reading a number from a manifest: a run of decimal digits, after an
/// optional `+`, gives its value when that fits in 64 bits; an empty text,
/// a lone `+` or a text with any other character gives nothing.
pub proof fn law_parse_u64(s: Seq<char>)
    ensures
        s.len() > 0 && all_digits(s) && decimal_value(s) <= u64::MAX ==> parse_u64_spec(s) == Some(
            decimal_value(s) as u64,
        ),
        s.len() > 0 && all_digits(s) && decimal_value(s) <= u64::MAX ==> parse_u64_spec(
            seq!['+'] + s,
        ) == Some(decimal_value(s) as u64),
        s.len() == 0 ==> parse_u64_spec(s) is None,
        (exists|i: int| 0 < i < s.len() && !is_digit(#[trigger] s[i])) ==> parse_u64_spec(s) is None,
        s.len() > 0 && s[0] != '+' && !is_digit(s[0]) ==> parse_u64_spec(s) is None,
{
    if s.len() > 0 && all_digits(s) {
        assert(is_digit(s[0]));
        assert((seq!['+'] + s).drop_first() =~= s);
    }
    if exists|i: int| 0 < i < s.len() && !is_digit(#[trigger] s[i]) {
        let i = choose|i: int| 0 < i < s.len() && !is_digit(#[trigger] s[i]);
        if s[0] == '+' {
            assert(s.drop_first()[i - 1] == s[i]);
        }
    }
}

/// A decimal number's value: appending a digit multiplies by ten and adds the
/// digit, and every run of digits has a value of at least zero.
pub proof fn law_decimal_value(d: Seq<char>, c: char)
    requires
        all_digits(d),
        is_digit(c),
    ensures
        decimal_value(d.push(c)) == 10 * decimal_value(d) + (c as int - '0' as int),
        decimal_value(d) >= 0,
        decimal_value(seq![c]) == c as int - '0' as int,
    decreases d.len(),
{
    assert(d.push(c).drop_last() =~= d);
    assert(seq![c].drop_last() =~= Seq::<char>::empty());
    assert(decimal_value(Seq::<char>::empty()) == 0);
    assert(seq![c].last() == c);
    if d.len() > 0 {
        law_decimal_value(d.drop_last(), d.last());
        assert(d.drop_last().push(d.last()) =~= d);
    }
}

/// The progress bar is 22 characters: brackets around `filled` full cells
/// followed by empty cells up to 20.
pub proof fn law_progress_bar(filled: nat)
    requires
        filled <= 20,
    ensures
        bar_text(filled).len() == 22,
        bar_text(filled)[0] == '[',
        bar_text(filled)[21] == ']',
        forall|i: int| 1 <= i <= filled ==> #[trigger] bar_text(filled)[i] == '\u{2588}',
        forall|i: int| filled < i <= 20 ==> #[trigger] bar_text(filled)[i] == '\u{2591}',
{
}

/// The percentage shown never exceeds 100 while no more bytes were
/// downloaded than are to be downloaded, and a complete download shows 100.
pub proof fn law_percent_of(downloaded: u64, total: u64)
    requires
        total > 0,
    ensures
        downloaded <= total ==> 0 <= percent_of(downloaded, total) <= 100,
        downloaded == total ==> percent_of(downloaded, total) == 100,
        percent_of(downloaded, total) * total <= downloaded * 100 < (percent_of(downloaded, total)
            + 1) * total,
{
    let p = percent_of(downloaded, total);
    assert(p * total <= downloaded * 100 < (p + 1) * total) by (nonlinear_arith)
        requires
            p == (downloaded * 100) / (total as int),
            total > 0,
            downloaded >= 0,
    ;
    if downloaded <= total {
        assert(0 <= p <= 100) by (nonlinear_arith)
            requires
                p == (downloaded * 100) / (total as int),
                total > 0,
                downloaded >= 0,
                downloaded <= total,
        ;
    }
    if downloaded == total {
        assert(p == 100) by (nonlinear_arith)
            requires
                p == (downloaded * 100) / (total as int),
                total > 0,
                downloaded == total,
        ;
    }
}

/// The library folders listed include the value of every entry whose key
/// ends in `.path`, and no more folders than there are entries.
pub proof fn law_library_paths(s: Seq<(Seq<char>, String)>)
    ensures
        forall|j: int|
            0 <= j < s.len() && #[trigger] is_path_key(s[j].0) ==> path_values(s).contains(s[j].1@),
        path_values(s).len() <= s.len(),
        forall|k: Seq<char>|
            #[trigger] is_path_key(k) <==> k.len() >= 5 && k.subrange(k.len() - 5, k.len() as int)
                == seq!['.', 'p', 'a', 't', 'h'],
    decreases s.len(),
{
    reveal_strlit(".path");
    assert(".path"@ =~= seq!['.', 'p', 'a', 't', 'h']);
    if s.len() > 0 {
        let s0 = s.drop_last();
        law_library_paths(s0);
        let p = path_values(s);
        let p0 = path_values(s0);
        assert forall|j: int| 0 <= j < s.len() && #[trigger] is_path_key(s[j].0) implies p.contains(
            s[j].1@,
        ) by {
            if j < s0.len() {
                assert(s0[j] == s[j]);
                let k = choose|k: int| 0 <= k < p0.len() && p0[k] == s0[j].1@;
                assert(p[k] == p0[k]);
            } else {
                assert(p[p.len() - 1] == s.last().1@);
            }
        }
    }
}

/// The path `which steamcmd` printed, if it printed one: its output trimmed,
/// when not empty.
pub fn which_output_path(output: &str) -> (r: Option<String>)
    ensures
        match r {
            Some(p) => p@ == trim(output@) && p@.len() > 0,
            None => trim(output@).len() == 0,
        },
{
    let v = str_chars(output);
    let (a, b) = trim_range(v.as_slice(), 0, v.len(), false);
    assert(v@.subrange(0, v@.len() as int) =~= v@);
    if a == b {
        None
    } else {
        Some(string_of(v.as_slice(), a, b))
    }
}

/// Download progress read from an appmanifest.
#[derive(Debug, Clone, Copy, PartialEq, Eq)]
pub struct DownloadProgress {
    pub bytes_downloaded: u64,
    pub bytes_total: u64,
}

/// The download progress the manifest text records.
pub fn get_download_progress(content: &str) -> (p: DownloadProgress)
    ensures
        p.bytes_total == field_u64(parse_vdf(content@), "appstate.bytestodownload"@),
        p.bytes_downloaded == field_u64(parse_vdf(content@), "appstate.bytesdownloaded"@),
{
    let vdf = parse_vdf_flat(content);
    let bytes_total = read_u64_field(&vdf, "appstate.bytestodownload");
    let bytes_downloaded = read_u64_field(&vdf, "appstate.bytesdownloaded");
    DownloadProgress { bytes_downloaded, bytes_total }
}

/// What waiting for a download does after reading the manifest again.
#[derive(Debug, Clone, Copy, PartialEq, Eq)]
pub enum WaitStep {
    /// The download has started and nothing is pending: stop waiting.
    Finished,
    /// Show the progress: `percent` done, `filled` of the 20 bar cells.
    Progress { percent: u64, filled: usize },
    /// Nothing to download yet: show that Steam has not started.
    Waiting,
}

/// The percentage shown for `downloaded` of `total` bytes.
pub open spec fn percent_of(downloaded: u64, total: u64) -> int {
    (downloaded * 100) / (total as int)
}

/// The progress is one that can be shown: the percentage is computed without
/// overflow and fills at most the 20 cells of the bar.
pub open spec fn progress_showable(p: DownloadProgress) -> bool {
    p.bytes_total > 0 ==> p.bytes_downloaded * 100 <= u64::MAX && percent_of(
        p.bytes_downloaded,
        p.bytes_total,
    ) / 5 <= 20
}

/// The step after reading `progress` and `pending` from the manifest, where
/// `started` tells whether a download was seen before; also gives whether a
/// download has been seen now.
pub fn download_wait_step(started: bool, pending: bool, progress: DownloadProgress) -> (r: (
    bool,
    WaitStep,
))
    requires
        (started || progress.bytes_total > 0) && !pending || progress_showable(progress),
    ensures
        r.0 == (started || progress.bytes_total > 0),
        r.1 == (if r.0 && !pending {
            WaitStep::Finished
        } else if progress.bytes_total > 0 {
            WaitStep::Progress {
                percent: percent_of(progress.bytes_downloaded, progress.bytes_total) as u64,
                filled: (percent_of(progress.bytes_downloaded, progress.bytes_total) / 5) as usize,
            }
        } else {
            WaitStep::Waiting
        }),
{
    let now_started = started || progress.bytes_total > 0;
    if now_started && !pending {
        return (now_started, WaitStep::Finished);
    }
    if progress.bytes_total > 0 {
        let percent = (progress.bytes_downloaded * 100) / progress.bytes_total;
        let filled = (percent / 5) as usize;
        (now_started, WaitStep::Progress { percent, filled })
    } else {
        (now_started, WaitStep::Waiting)
    }
}

/// The progress bar with `filled` of its 20 cells filled.
pub open spec fn bar_text(filled: nat) -> Seq<char> {
    seq!['['] + Seq::new(filled, |i: int| '\u{2588}') + Seq::new(
        (20 - filled) as nat,
        |i: int| '\u{2591}',
    ) + seq![']']
}

/// The progress bar with `filled` of its 20 cells filled.
pub fn progress_bar(filled: usize) -> (r: String)
    requires
        filled <= 20,
    ensures
        r@ == bar_text(filled as nat),
{
    let mut r = String::new();
    push_char(&mut r, '[');
    let mut i: usize = 0;
    while i < filled
        invariant
            i <= filled <= 20,
            r@ == seq!['['] + Seq::new(i as nat, |k: int| '\u{2588}'),
        decreases filled - i,
    {
        push_char(&mut r, '\u{2588}');
        assert(r@ =~= seq!['['] + Seq::new((i + 1) as nat, |k: int| '\u{2588}'));
        i += 1;
    }
    let mut j: usize = 0;
    while j < 20 - filled
        invariant
            filled <= 20,
            j <= 20 - filled,
            r@ == seq!['['] + Seq::new(filled as nat, |k: int| '\u{2588}') + Seq::new(
                j as nat,
                |k: int| '\u{2591}',
            ),
        decreases 20 - filled - j,
    {
        push_char(&mut r, '\u{2591}');
        assert(r@ =~= seq!['['] + Seq::new(filled as nat, |k: int| '\u{2588}') + Seq::new(
            (j + 1) as nat,
            |k: int| '\u{2591}',
        ));
        j += 1;
    }
    push_char(&mut r, ']');
    r
}

/// The game's directory name under `steamapps/common`, as the manifest text
/// records it.
pub fn get_install_dir(content: &str) -> (r: Result<String, SteamError>)
    ensures
        match r {
            Ok(d) => parse_vdf(content@).dom().contains("appstate.installdir"@) && d@ == parse_vdf(
                content@,
            )["appstate.installdir"@],
            Err(e) => !parse_vdf(content@).dom().contains("appstate.installdir"@)
                && e is InstallDirNotFound,
        },
{
    let vdf = parse_vdf_flat(content);
    match vdf.get("appstate.installdir") {
        Some(d) => Ok(d.clone()),
        None => Err(SteamError::InstallDirNotFound),
    }
}

/// Whether `key` names a library folder's path (it ends in `.path`).
pub open spec fn is_path_key(key: Seq<char>) -> bool {
    key.len() >= 5 && key.subrange(key.len() - 5, key.len() as int) == ".path"@
}

/// The values of the entries whose key names a library path, in entry order.
pub open spec fn path_values(s: Seq<(Seq<char>, String)>) -> Seq<Seq<char>>
    decreases s.len(),
{
    if s.len() == 0 {
        seq![]
    } else if is_path_key(s.last().0) {
        path_values(s.drop_last()).push(s.last().1@)
    } else {
        path_values(s.drop_last())
    }
}

/// The library folder paths listed in the entries of `libraryfolders.vdf`.
pub fn library_paths(vdf: &StrMap<String>) -> (r: Vec<String>)
    ensures
        texts(r@) == path_values(vdf.pairs()),
{
    proof {
        reveal_strlit(".path");
    }
    let suffix = str_chars(".path");
    let mut r: Vec<String> = Vec::new();
    let n = vdf.len();
    let mut i: usize = 0;
    while i < n
        invariant
            n == vdf.pairs().len(),
            i <= n,
            suffix@ == ".path"@,
            suffix@.len() == 5,
            texts(r@) == path_values(vdf.pairs().take(i as int)),
        decreases n - i,
    {
        let (key, value) = vdf.entry(i);
        let kc = str_chars(key.as_str());
        let mut ends = kc.len() >= 5;
        if ends {
            let mut j: usize = 0;
            while j < 5
                invariant
                    j <= 5,
                    kc@.len() >= 5,
                    suffix@.len() == 5,
                    ends == (forall|m: int| 0 <= m < j ==> kc@[kc@.len() - 5 + m] == suffix@[m]),
                decreases 5 - j,
            {
                if kc[kc.len() - 5 + j] != suffix[j] {
                    ends = false;
                }
                j += 1;
            }
            if ends {
                assert(kc@.subrange(kc@.len() - 5, kc@.len() as int) =~= suffix@);
            } else {
                proof {
                    let m = choose|m: int| 0 <= m < 5 && kc@[kc@.len() - 5 + m] != suffix@[m];
                    assert(kc@.subrange(kc@.len() - 5, kc@.len() as int)[m] == kc@[kc@.len() - 5
                        + m]);
                }
            }
        }
        let ghost before = r@;
        assert(vdf.pairs().take(i + 1).drop_last() =~= vdf.pairs().take(i as int));
        if ends {
            r.push(value.clone());
            assert(texts(r@) =~= texts(before).push(value@));
        }
        i += 1;
    }
    assert(vdf.pairs().take(i as int) =~= vdf.pairs());
    r
}


/// The state of the `betakey` rewriter between lines.
pub struct AcfState {
    /// Inside a `"UserConfig"` section.
    pub in_user: bool,
    /// Inside a `"MountedConfig"` section.
    pub in_mounted: bool,
    /// A `betakey` line was written in the current `UserConfig` section.
    pub found_user: bool,
    /// A `betakey` line was written in the current `MountedConfig` section.
    pub found_mounted: bool,
    /// Brace depth inside the current section.
    pub depth: int,
    /// The text written so far.
    pub out: Seq<char>,
    /// No step so far has failed (a brace depth out of `i32` range).
    pub ok: bool,
}

/// The rewriter's state before the first line.
pub open spec fn acf_start() -> AcfState {
    AcfState {
        in_user: false,
        in_mounted: false,
        found_user: false,
        found_mounted: false,
        depth: 0,
        out: seq![],
        ok: true,
    }
}

/// `n` is a value of `i32`.
pub open spec fn in_i32(n: int) -> bool {
    i32::MIN <= n <= i32::MAX
}

/// The leading white space of `line`, which a rewritten line keeps.
pub open spec fn indentation(line: Seq<char>) -> Seq<char> {
    line.take(line.len() - trim_start_by(line, strip_pred(false)).len())
}

/// A `betakey` line: indentation, then `"betakey"`, two tabs and the quoted key.
pub open spec fn betakey_line(indent: Seq<char>, key: Seq<char>) -> Seq<char> {
    indent + "\"betakey\"\t\t\""@ + key + "\"\n"@
}

/// A `betakey` line the rewriter writes is read back by the VDF reader as an
/// entry for the key `betakey` with the value written, when the indentation
/// is white space other than a newline and the value holds no tab or newline
/// and neither starts nor ends with a quote (the empty value included).
pub proof fn law_betakey_line_reads_back(indent: Seq<char>, key: Seq<char>)
    requires
        forall|i: int|
            0 <= i < indent.len() ==> is_white_space(#[trigger] indent[i]) && indent[i] != '\n',
        forall|i: int| 0 <= i < key.len() ==> #[trigger] key[i] != '\t' && key[i] != '\n',
        key.len() > 0 ==> key[0] != '"' && key.last() != '"',
    ensures
        lines(betakey_line(indent, key)) == seq![betakey_line(indent, key).drop_last()],
        vdf_kind(betakey_line(indent, key).drop_last()) == VdfKind::Entry("betakey"@, key),
{
    reveal_strlit("\"betakey\"\t\t\"");
    reveal_strlit("\"\n");
    reveal_strlit("betakey");
    let head = "\"betakey\"\t\t\""@;
    let full = betakey_line(indent, key);
    let line = full.drop_last();
    let body = head + key + seq!['"'];
    assert(head =~= seq!['"', 'b', 'e', 't', 'a', 'k', 'e', 'y', '"', '\t', '\t', '"']);
    assert(line =~= indent + body);
    // the text is one line
    assert(full =~= line.push('\n'));
    assert forall|i: int| 0 <= i < line.len() implies #[trigger] line[i] != '\n' by {
        if i < indent.len() {
            assert(line[i] == indent[i]);
        } else if i < indent.len() + head.len() {
            assert(line[i] == head[i - indent.len()]);
        } else if i < indent.len() + head.len() + key.len() {
            assert(line[i] == key[i - indent.len() - head.len()]);
        } else {
            assert(line[i] == '"');
        }
    }
    lemma_first_of(full, '\n', line.len() as int);
    assert(full.take(line.len() as int) =~= line);
    assert(full.skip(line.len() as int + 1) =~= Seq::<char>::empty());
    assert(strip_cr(line) == line);
    assert(lines(Seq::<char>::empty()) =~= Seq::<Seq<char>>::empty());
    assert(lines(full) =~= seq![line]);
    // trimming the line leaves its body
    let ws = strip_pred(false);
    assert forall|i: int| 0 <= i < indent.len() implies ws(#[trigger] indent[i]) by {}
    lemma_trim_start_prefix(indent, body, ws);
    assert(trim_start_by(body, ws) == body);
    assert(body.last() == '"');
    assert(trim_end_by(body, ws) == body);
    assert(trim(line) == body);
    // the pieces between tabs
    assert(body[9] == '\t');
    assert forall|i: int| 0 <= i < 9 implies #[trigger] body[i] != '\t' by {
        assert(body[i] == head[i]);
    }
    lemma_first_of(body, '\t', 9);
    let rest1 = body.skip(10);
    assert(rest1[0] == '\t');
    lemma_first_of(rest1, '\t', 0);
    let rest2 = rest1.skip(1);
    assert(rest2 =~= seq!['"'] + key + seq!['"']);
    assert forall|i: int| 0 <= i < rest2.len() implies #[trigger] rest2[i] != '\t' by {
        if 0 < i < rest2.len() - 1 {
            assert(rest2[i] == key[i - 1]);
        }
    }
    lemma_first_of(rest2, '\t', rest2.len() as int);
    assert(split_char(rest2, '\t') == seq![rest2]);
    assert(rest1.take(0) =~= Seq::<char>::empty());
    assert(split_char(rest1, '\t') == seq![Seq::<char>::empty()] + seq![rest2]);
    let name = body.take(9);
    assert(name =~= seq!['"', 'b', 'e', 't', 'a', 'k', 'e', 'y', '"']);
    assert(split_char(body, '\t') == seq![name] + split_char(rest1, '\t'));
    let pieces = split_char(body, '\t');
    assert(pieces =~= seq![name, Seq::<char>::empty(), rest2]);
    // each piece trimmed of white space; the empty one is left out
    assert(trim(name) == name);
    assert(trim(Seq::<char>::empty()) =~= Seq::<char>::empty());
    assert(trim(rest2) == rest2);
    let trimmed = pieces.map_values(|p: Seq<char>| trim(p));
    assert(trimmed =~= seq![name, Seq::<char>::empty(), rest2]);
    assert(trimmed.drop_last() =~= seq![name, Seq::<char>::empty()]);
    assert(trimmed.drop_last().drop_last() =~= seq![name]);
    assert(seq![name].drop_last() =~= Seq::<Seq<char>>::empty());
    assert(keep_nonempty(Seq::<Seq<char>>::empty()) =~= Seq::<Seq<char>>::empty());
    assert(keep_nonempty(seq![name]) =~= seq![name]);
    assert(keep_nonempty(trimmed.drop_last()) =~= seq![name]);
    assert(vdf_fields(line) =~= seq![name, rest2]);
    // the quotes removed
    let q = strip_pred(true);
    let bare = seq!['b', 'e', 't', 'a', 'k', 'e', 'y'];
    assert(name.drop_first() =~= bare + seq!['"']);
    assert(trim_start_by(name, q) == trim_start_by(name.drop_first(), q));
    assert(trim_start_by(bare + seq!['"'], q) == bare + seq!['"']);
    assert((bare + seq!['"']).drop_last() =~= bare);
    assert(trim_end_by(bare + seq!['"'], q) == trim_end_by(bare, q));
    assert(trim_end_by(bare, q) == bare);
    assert(trim_quotes(name) == bare);
    assert(bare =~= "betakey"@);
    assert(rest2.drop_first() =~= key + seq!['"']);
    assert(trim_start_by(rest2, q) == trim_start_by(key + seq!['"'], q));
    if key.len() > 0 {
        assert((key + seq!['"'])[0] == key[0]);
        assert(trim_start_by(key + seq!['"'], q) == key + seq!['"']);
    } else {
        assert(key + seq!['"'] =~= seq!['"']);
        assert(seq!['"'].drop_first() =~= Seq::<char>::empty());
        assert(seq!['"'][0] == '"');
        assert(trim_start_by(Seq::<char>::empty(), q) =~= Seq::<char>::empty());
        assert(trim_start_by(seq!['"'], q) == trim_start_by(seq!['"'].drop_first(), q));
        assert(trim_start_by(key + seq!['"'], q) =~= Seq::<char>::empty());
        assert(trim_end_by(Seq::<char>::empty(), q) =~= Seq::<char>::empty());
    }
    if key.len() > 0 {
        assert((key + seq!['"']).drop_last() =~= key);
        assert(trim_end_by(key + seq!['"'], q) == trim_end_by(key, q));
        assert(trim_end_by(key, q) == key);
    }
    assert(trim_quotes(rest2) =~= key);
    assert(vdf_tokens(line) =~= seq![bare, key]);
    assert(is_ascii_chars(bare));
    assert(ascii_lower(bare) =~= bare);
    assert(lower_text(bare) == bare);
    assert(body != seq!['{']);
    assert(body != seq!['}']);
}

/// The rewriter's state after `line`, setting the `betakey` to `key`.
pub open spec fn acf_step(st: AcfState, line: Seq<char>, key: Seq<char>) -> AcfState {
    let t = trim(line);
    let user_header = contains_text(t, "\"UserConfig\""@);
    let mounted_header = !user_header && contains_text(t, "\"MountedConfig\""@);
    let iu = st.in_user || user_header;
    let im = st.in_mounted || mounted_header;
    let d0 = if user_header || mounted_header {
        0
    } else {
        st.depth
    };
    let opens = (iu || im) && t == seq!['{'];
    let d1 = if opens {
        d0 + 1
    } else {
        d0
    };
    let closes = (iu || im) && t == seq!['}'];
    let d2 = if closes {
        d1 - 1
    } else {
        d1
    };
    let ends = closes && d2 == 0;
    let added = if ends {
        (if iu && !st.found_user {
            betakey_line("\t\t"@, key)
        } else {
            seq![]
        }) + (if im && !st.found_mounted {
            betakey_line("\t\t"@, key)
        } else {
            seq![]
        })
    } else {
        seq![]
    };
    let iu2 = iu && !ends;
    let im2 = im && !ends;
    let found_user = st.found_user;
    let found_mounted = st.found_mounted;
    let replace = (iu2 || im2) && contains_text(lower_text(t), "\"betakey\""@);
    let ok = st.ok && in_i32(d1) && in_i32(d2);
    if replace {
        AcfState {
            in_user: iu2,
            in_mounted: im2,
            found_user: found_user || iu2,
            found_mounted: found_mounted || im2,
            depth: d2,
            out: st.out + added + betakey_line(indentation(line), key),
            ok,
        }
    } else {
        AcfState {
            in_user: iu2,
            in_mounted: im2,
            found_user,
            found_mounted,
            depth: d2,
            out: st.out + added + line + seq!['\n'],
            ok,
        }
    }
}

/// The rewriter's state after `ls`.
pub open spec fn acf_fold(ls: Seq<Seq<char>>, key: Seq<char>) -> AcfState
    decreases ls.len(),
{
    if ls.len() == 0 {
        acf_start()
    } else {
        acf_step(acf_fold(ls.drop_last(), key), ls.last(), key)
    }
}

/// `s` ends with a newline.
pub open spec fn ends_with_newline(s: Seq<char>) -> bool {
    s.len() > 0 && s.last() == '\n'
}

/// `out` given the same final newline, or lack of one, as `content`.
pub open spec fn match_final_newline(content: Seq<char>, out: Seq<char>) -> Seq<char> {
    if ends_with_newline(content) && !ends_with_newline(out) {
        out.push('\n')
    } else if !ends_with_newline(content) && ends_with_newline(out) {
        out.drop_last()
    } else {
        out
    }
}

/// `content` can be rewritten without a failing step.
pub open spec fn acf_rewritable(content: Seq<char>, key: Seq<char>) -> bool {
    acf_fold(lines(content), key).ok
}

/// The manifest text `content` with its `betakey` set to `key`.
pub open spec fn acf_with_betakey(content: Seq<char>, key: Seq<char>) -> Seq<char> {
    match_final_newline(content, acf_fold(lines(content), key).out)
}

proof fn lemma_acf_ok_prefix(ls: Seq<Seq<char>>, key: Seq<char>, i: int)
    requires
        0 <= i <= ls.len(),
        acf_fold(ls, key).ok,
    ensures
        acf_fold(ls.take(i), key).ok,
    decreases ls.len(),
{
    if i < ls.len() {
        lemma_acf_ok_prefix(ls.drop_last(), key, i);
        assert(ls.drop_last().take(i) =~= ls.take(i));
    } else {
        assert(ls.take(i) =~= ls);
    }
}

/// Every line the rewriter writes ends with a newline.
proof fn lemma_acf_out_newline(ls: Seq<Seq<char>>, key: Seq<char>)
    ensures
        ends_with_newline(acf_fold(ls, key).out) <==> ls.len() > 0,
    decreases ls.len(),
{
    reveal_strlit("\"\n");
    if ls.len() > 0 {
        lemma_acf_out_newline(ls.drop_last(), key);
        let st = acf_fold(ls.drop_last(), key);
        let nx = acf_fold(ls, key);
        let line = ls.last();
        let t = trim(line);
        let ind = indentation(line);
        let bl = betakey_line(ind, key);
        assert(bl.last() == '\n');
        assert((line + seq!['\n']).last() == '\n');
    }
}

/// The text written for the last of `ls` ends with a character other than a
/// newline, then a newline, when that line is not empty and does not end
/// with a newline.
proof fn lemma_acf_out_last_line(ls: Seq<Seq<char>>, key: Seq<char>)
    requires
        ls.len() > 0,
        ls.last().len() > 0,
        ls.last().last() != '\n',
    ensures
        acf_fold(ls, key).out.len() >= 2,
        acf_fold(ls, key).out.last() == '\n',
        acf_fold(ls, key).out[acf_fold(ls, key).out.len() - 2] != '\n',
{
    reveal_strlit("\"\n");
    let line = ls.last();
    let st = acf_fold(ls.drop_last(), key);
    let nx = acf_fold(ls, key);
    let bl = betakey_line(indentation(line), key);
    assert(bl[bl.len() - 2] == '"');
    assert(bl.last() == '\n');
    let piece = line + seq!['\n'];
    assert(piece[piece.len() - 2] == line.last());
}

/// Setting the `betakey` keeps a manifest's final newline, or its absence.
pub proof fn law_betakey_keeps_final_newline(content: Seq<char>, key: Seq<char>)
    ensures
        ends_with_newline(acf_with_betakey(content, key)) == ends_with_newline(content),
{
    let ls = lines(content);
    lemma_acf_out_newline(ls, key);
    if content.len() > 0 && content.last() != '\n' {
        lemma_lines_last(content);
        lemma_acf_out_last_line(ls, key);
    }
    if content.len() == 0 {
        assert(ls.len() == 0);
    }
}

/// No line of `ls` is a `UserConfig` or `MountedConfig` section header.
pub open spec fn no_config_headers(ls: Seq<Seq<char>>) -> bool {
    forall|i: int|
        0 <= i < ls.len() ==> !contains_text(trim(#[trigger] ls[i]), "\"UserConfig\""@)
            && !contains_text(trim(ls[i]), "\"MountedConfig\""@)
}

proof fn lemma_acf_without_headers(ls: Seq<Seq<char>>, key: Seq<char>)
    requires
        no_config_headers(ls),
    ensures
        acf_fold(ls, key) == (AcfState {
            in_user: false,
            in_mounted: false,
            found_user: false,
            found_mounted: false,
            depth: 0,
            out: joined_lines(ls),
            ok: true,
        }),
    decreases ls.len(),
{
    if ls.len() > 0 {
        assert forall|i: int| 0 <= i < ls.drop_last().len() implies !contains_text(
            trim(#[trigger] ls.drop_last()[i]),
            "\"UserConfig\""@,
        ) && !contains_text(trim(ls.drop_last()[i]), "\"MountedConfig\""@) by {
            assert(ls.drop_last()[i] == ls[i]);
        }
        lemma_acf_without_headers(ls.drop_last(), key);
        let line = ls.last();
        assert(ls[ls.len() - 1] == line);
        let st = acf_fold(ls.drop_last(), key);
        let nx = acf_step(st, line, key);
        assert(nx.out =~= joined_lines(ls.drop_last()) + line + seq!['\n']);
    }
}

/// Setting the `betakey` of a manifest that has no `UserConfig` or
/// `MountedConfig` section leaves the text as it is (when its lines do not
/// end in `\r\n`, whose `\r` the line reader drops).
pub proof fn law_betakey_keeps_text_without_sections(content: Seq<char>, key: Seq<char>)
    requires
        no_config_headers(lines(content)),
        no_crlf(content),
    ensures
        acf_rewritable(content, key),
        acf_with_betakey(content, key) == content,
{
    lemma_acf_without_headers(lines(content), key);
    lemma_joined_lines_of(content);
    if content.len() > 0 && content.last() != '\n' {
        assert(content.push('\n').drop_last() =~= content);
    }
}

/// Appends a `betakey` line with the given indentation.
fn push_betakey_line(out: &mut String, indent: &str, key: &str)
    ensures
        final(out)@ == old(out)@ + betakey_line(indent@, key@),
{
    push_text(out, indent);
    push_text(out, "\"betakey\"\t\t\"");
    push_text(out, key);
    push_text(out, "\"\n");
    assert(final(out)@ =~= old(out)@ + betakey_line(indent@, key@));
}

/// The rewriter's state in executable form.
struct AcfWriter {
    in_user: bool,
    in_mounted: bool,
    found_user: bool,
    found_mounted: bool,
    depth: i32,
    out: String,
}

impl AcfWriter {
    spec fn state(&self, ok: bool) -> AcfState {
        AcfState {
            in_user: self.in_user,
            in_mounted: self.in_mounted,
            found_user: self.found_user,
            found_mounted: self.found_mounted,
            depth: self.depth as int,
            out: self.out@,
            ok,
        }
    }

    /// Takes in the line `v[a..b]`: gives `false` where the step fails.
    fn step(
        &mut self,
        v: &[char],
        a: usize,
        b: usize,
        betakey: &str,
        user_pat: &[char],
        mounted_pat: &[char],
        key_pat: &[char],
    ) -> (ok: bool)
        requires
            a <= b <= v@.len(),
            user_pat@ == "\"UserConfig\""@,
            mounted_pat@ == "\"MountedConfig\""@,
            key_pat@ == "\"betakey\""@,
        ensures
            ok == acf_step(old(self).state(true), v@.subrange(a as int, b as int), betakey@).ok,
            ok ==> final(self).state(true) == acf_step(
                old(self).state(true),
                v@.subrange(a as int, b as int),
                betakey@,
            ),
    {
        let ghost line = v@.subrange(a as int, b as int);
        let ghost st = old(self).state(true);
        let ghost next = acf_step(st, line, betakey@);
        let (ta, tb) = trim_range(v, a, b, false);
        let ghost t = trim(line);
        assert(v@.subrange(ta as int, tb as int) == t);
        let user_header = range_contains(v, ta, tb, user_pat);
        let mounted_header = !user_header && range_contains(
            v,
            ta,
            tb,
            mounted_pat,
        );
        assert(user_header == contains_text(t, "\"UserConfig\""@));
        assert(mounted_header == (!user_header && contains_text(t, "\"MountedConfig\""@)));
        if user_header {
            self.in_user = true;
            self.depth = 0;
        } else if mounted_header {
            self.in_mounted = true;
            self.depth = 0;
        }
        let ghost iu = st.in_user || user_header;
        let ghost im = st.in_mounted || mounted_header;
        assert(self.in_user == iu && self.in_mounted == im);
        let single = tb - ta == 1;
        let is_open = single && v[ta] == '{';
        let is_close = single && v[ta] == '}';
        proof {
            assert(t.len() == tb - ta);
            if single {
                assert(t[0] == v@[ta as int]);
                assert(t =~= seq![v@[ta as int]]);
            } else {
                assert(t.len() != 1);
            }
            assert(is_open == (t == seq!['{']));
            assert(is_close == (t == seq!['}']));
        }
        let ghost d0 = self.depth as int;
        if (self.in_user || self.in_mounted) && is_open {
            match self.depth.checked_add(1) {
                Some(d) => {
                    self.depth = d;
                },
                None => {
                    assert(!next.ok);
                    return false;
                },
            }
        }
        let ghost d1 = self.depth as int;
        let ghost out0 = self.out@;
        let mut ends = false;
        if (self.in_user || self.in_mounted) && is_close {
            match self.depth.checked_sub(1) {
                Some(d) => {
                    self.depth = d;
                },
                None => {
                    assert(!next.ok);
                    return false;
                },
            }
            if self.depth == 0 {
                ends = true;
                if self.in_user && !self.found_user {
                    push_betakey_line(&mut self.out, "\t\t", betakey);
                }
                if self.in_mounted && !self.found_mounted {
                    push_betakey_line(&mut self.out, "\t\t", betakey);
                }
                self.in_user = false;
                self.in_mounted = false;
            }
        }
        let ghost added = if ends {
            (if iu && !st.found_user {
                betakey_line("\t\t"@, betakey@)
            } else {
                seq![]
            }) + (if im && !st.found_mounted {
                betakey_line("\t\t"@, betakey@)
            } else {
                seq![]
            })
        } else {
            seq![]
        };
        assert(self.out@ =~= out0 + added);
        assert(out0 == st.out);
        let replace = if self.in_user || self.in_mounted {
            let trimmed = string_of(v, ta, tb);
            let lowered = to_lowercase(trimmed.as_str());
            let lower = str_chars(lowered.as_str());
            assert(lower@.subrange(0, lower@.len() as int) =~= lower@);
            range_contains(lower.as_slice(), 0, lower.len(), key_pat)
        } else {
            false
        };
        assert(replace == ((self.in_user || self.in_mounted) && contains_text(
            lower_text(t),
            "\"betakey\""@,
        )));
        let ghost out1 = self.out@;
        if replace {
            let indent = string_of(v, a, ta);
            assert(indent@ =~= indentation(line));
            push_betakey_line(&mut self.out, indent.as_str(), betakey);
            if self.in_user {
                self.found_user = true;
            }
            if self.in_mounted {
                self.found_mounted = true;
            }
            assert(self.out@ =~= st.out + added + betakey_line(
                indentation(line),
                betakey@,
            ));
        } else {
            let text = string_of(v, a, b);
            push_text(&mut self.out, text.as_str());
            push_char(&mut self.out, '\n');
            assert(self.out@ =~= st.out + added + line + seq!['\n']);
        }
        assert(self.out@ == next.out);
        assert(next.ok);
        assert(self.state(true) == next);
        true
    }
}

/// The manifest text `content` with its `betakey` set to `betakey`, or
/// `None` where the rewrite cannot be done (a brace depth beyond `i32`).
pub fn try_set_betakey_in_acf(content: &str, betakey: &str) -> (r: Option<String>)
    ensures
        match r {
            Some(s) => acf_rewritable(content@, betakey@) && s@ == acf_with_betakey(
                content@,
                betakey@,
            ),
            None => !acf_rewritable(content@, betakey@),
        },
{
    let v = str_chars(content);
    let ranges = line_ranges(v.as_slice());
    let user_pat = str_chars("\"UserConfig\"");
    let mounted_pat = str_chars("\"MountedConfig\"");
    let key_pat = str_chars("\"betakey\"");
    let ghost ls = lines(v@);
    let mut w = AcfWriter {
        in_user: false,
        in_mounted: false,
        found_user: false,
        found_mounted: false,
        depth: 0,
        out: String::new(),
    };
    let mut i: usize = 0;
    while i < ranges.len()
        invariant
            v@ == content@,
            ls == lines(v@),
            ranges_within(ranges@, 0, v@.len() as int),
            range_texts(v@, ranges@) == ls,
            acf_fold(ls.take(i as int), betakey@).ok,
            user_pat@ == "\"UserConfig\""@,
            mounted_pat@ == "\"MountedConfig\""@,
            key_pat@ == "\"betakey\""@,
            i <= ranges@.len(),
            w.state(true) == acf_fold(ls.take(i as int), betakey@),
        decreases ranges@.len() - i,
    {
        let (a, b) = ranges[i];
        let ghost line = v@.subrange(a as int, b as int);
        let ghost st = acf_fold(ls.take(i as int), betakey@);
        proof {
            assert(ls[i as int] == line);
            assert(ls.take(i + 1).drop_last() =~= ls.take(i as int));
            assert(ls.take(i + 1).last() == line);
            if acf_fold(ls, betakey@).ok {
                lemma_acf_ok_prefix(ls, betakey@, i + 1);
            }
        }
        let ghost next = acf_step(st, line, betakey@);
        assert(next == acf_fold(ls.take(i + 1), betakey@));
        let ok = w.step(
            v.as_slice(),
            a,
            b,
            betakey,
            user_pat.as_slice(),
            mounted_pat.as_slice(),
            key_pat.as_slice(),
        );
        if !ok {
            return None;
        }
        i += 1;
    }
    assert(ls.take(i as int) =~= ls);
    proof {
        lemma_acf_out_newline(ls, betakey@);
    }
    let mut out = w.out;
    let content_nl = v.len() > 0 && v[v.len() - 1] == '\n';
    let out_nl = ranges.len() > 0;
    if content_nl && !out_nl {
        push_char(&mut out, '\n');
    } else if !content_nl && out_nl {
        let _ = pop_char(&mut out);
    }
    Some(out)
}

/// The manifest text `content` with the `betakey` of its `UserConfig` and
/// `MountedConfig` sections set to `betakey`: each `betakey` line in those
/// sections is rewritten in place, and a section without one gets one before
/// its closing brace. The final newline, or its absence, is kept.
pub fn set_betakey_in_acf(content: &str, betakey: &str) -> (r: String)
    requires
        acf_rewritable(content@, betakey@),
    ensures
        r@ == acf_with_betakey(content@, betakey@),
{
    match try_set_betakey_in_acf(content, betakey) {
        Some(r) => r,
        None => {
            assert(false);
            String::new()
        },
    }
}

/// The manifest text `content` switched to the branch `target`.
pub fn switch_branch(content: &str, target: &Branch) -> (r: String)
    requires
        acf_rewritable(content@, branch_betakey(*target)),
    ensures
        r@ == acf_with_betakey(content@, branch_betakey(*target)),
{
    set_betakey_in_acf(content, target.betakey())
}

/// The manifest text `content` switched to the branch `target`, or `None`
/// where the rewrite cannot be done.
pub fn try_switch_branch(content: &str, target: &Branch) -> (r: Option<String>)
    ensures
        match r {
            Some(s) => acf_rewritable(content@, branch_betakey(*target)) && s@ == acf_with_betakey(
                content@,
                branch_betakey(*target),
            ),
            None => !acf_rewritable(content@, branch_betakey(*target)),
        },
{
    if try_set_betakey_in_acf(content, target.betakey()).is_some() {
        Some(switch_branch(content, target))
    } else {
        None
    }
}

} // verus!
