//! Satisfactory save files: the version header at the start of a `.sav`
//! file, which entries of a save directory are saves, and which directory
//! under the save root holds a player's saves.

use vstd::prelude::*;
use crate::order::{sort_strings, texts_sorted};
use crate::text::{str_chars, texts};

verus! {

/// The version header at the start of a save file.
#[derive(Debug, Clone, Copy, PartialEq, Eq)]
pub struct SaveHeader {
    pub header_version: i32,
    pub save_version: i32,
    pub build_version: i32,
}

/// Errors of the save logic.
#[derive(Debug, Clone, Copy, PartialEq, Eq)]
pub enum SaveError {
    /// The file is shorter than the 12-byte header.
    HeaderTooShort,
}

/// The `i32` whose little-endian bytes are `b0 b1 b2 b3` (`i32::from_le_bytes`).
pub open spec fn le_i32(b0: u8, b1: u8, b2: u8, b3: u8) -> int {
    let u = b0 + 256 * b1 + 65536 * b2 + 16777216 * b3;
    if u < 0x8000_0000 {
        u
    } else {
        u - 0x1_0000_0000
    }
}

/// The `i32` stored little-endian in `bytes[at..at + 4]`.
fn read_le_i32(bytes: &[u8], at: usize) -> (r: i32)
    requires
        at + 4 <= bytes@.len(),
    ensures
        r == le_i32(bytes@[at as int], bytes@[at + 1], bytes@[at + 2], bytes@[at + 3]),
{
    let u: i64 = bytes[at] as i64 + 256 * (bytes[at + 1] as i64) + 65536 * (bytes[at + 2] as i64)
        + 16777216 * (bytes[at + 3] as i64);
    if u < 0x8000_0000 {
        u as i32
    } else {
        (u - 0x1_0000_0000) as i32
    }
}

/// The header of a save file whose contents begin with `bytes`: three
/// little-endian `i32`s. A file shorter than 12 bytes has no header.
pub fn parse_save_header(bytes: &[u8]) -> (r: Result<SaveHeader, SaveError>)
    ensures
        match r {
            Ok(h) => bytes@.len() >= 12 && h.header_version == le_i32(
                bytes@[0],
                bytes@[1],
                bytes@[2],
                bytes@[3],
            ) && h.save_version == le_i32(bytes@[4], bytes@[5], bytes@[6], bytes@[7])
                && h.build_version == le_i32(bytes@[8], bytes@[9], bytes@[10], bytes@[11]),
            Err(e) => bytes@.len() < 12 && e == SaveError::HeaderTooShort,
        },
{
    if bytes.len() < 12 {
        return Err(SaveError::HeaderTooShort);
    }
    Ok(
        SaveHeader {
            header_version: read_le_i32(bytes, 0),
            save_version: read_le_i32(bytes, 4),
            build_version: read_le_i32(bytes, 8),
        },
    )
}

/// A directory entry named `name` has the extension `sav`: the name ends in
/// `.sav` after a non-empty stem.
pub open spec fn is_save_name(name: Seq<char>) -> bool {
    name.len() > 4 && name.subrange(name.len() - 4, name.len() as int) == ".sav"@
}

fn has_save_extension(name: &str) -> (b: bool)
    ensures
        b == is_save_name(name@),
{
    proof {
        reveal_strlit(".sav");
    }
    let v = str_chars(name);
    let suffix = str_chars(".sav");
    if v.len() <= 4 {
        return false;
    }
    let mut j: usize = 0;
    let mut same = true;
    while j < 4
        invariant
            j <= 4,
            v@.len() > 4,
            suffix@ == ".sav"@,
            suffix@.len() == 4,
            same == (forall|m: int| 0 <= m < j ==> v@[v@.len() - 4 + m] == suffix@[m]),
        decreases 4 - j,
    {
        if v[v.len() - 4 + j] != suffix[j] {
            same = false;
        }
        j += 1;
    }
    if same {
        assert(v@.subrange(v@.len() - 4, v@.len() as int) =~= suffix@);
    } else {
        proof {
            let m = choose|m: int| 0 <= m < 4 && v@[v@.len() - 4 + m] != suffix@[m];
            assert(v@.subrange(v@.len() - 4, v@.len() as int)[m] == v@[v@.len() - 4 + m]);
        }
    }
    same
}

/// The names among `s` that are save names, in order.
pub open spec fn save_names(s: Seq<Seq<char>>) -> Seq<Seq<char>>
    decreases s.len(),
{
    if s.len() == 0 {
        seq![]
    } else if is_save_name(s.last()) {
        save_names(s.drop_last()).push(s.last())
    } else {
        save_names(s.drop_last())
    }
}

/// The save files among the names of a save directory's entries, sorted.
pub fn list_saves(names: &Vec<String>) -> (r: Vec<String>)
    ensures
        texts_sorted(texts(r@)),
        texts(r@).to_multiset() == save_names(texts(names@)).to_multiset(),
{
    let mut found: Vec<String> = Vec::new();
    let mut i: usize = 0;
    while i < names.len()
        invariant
            i <= names@.len(),
            texts(found@) == save_names(texts(names@).take(i as int)),
        decreases names@.len() - i,
    {
        assert(texts(names@).take(i + 1).drop_last() =~= texts(names@).take(i as int));
        let ghost before = found@;
        if has_save_extension(names[i].as_str()) {
            found.push(names[i].clone());
            assert(texts(found@) =~= texts(before).push(names@[i as int]@));
        }
        i += 1;
    }
    assert(texts(names@).take(i as int) =~= texts(names@));
    sort_strings(found)
}

/// A directory name that looks like a Steam ID: more than five ASCII digits.
pub open spec fn is_steam_id_name(name: Seq<char>) -> bool {
    name.len() > 5 && forall|i: int| 0 <= i < name.len() ==> '0' <= #[trigger] name[i] <= '9'
}

fn looks_like_steam_id(name: &str) -> (b: bool)
    ensures
        b == is_steam_id_name(name@),
{
    let v = str_chars(name);
    let mut all = true;
    let mut i: usize = 0;
    while i < v.len()
        invariant
            i <= v@.len(),
            all == (forall|k: int| 0 <= k < i ==> '0' <= #[trigger] v@[k] <= '9'),
        decreases v@.len() - i,
    {
        if !('0' <= v[i] && v[i] <= '9') {
            all = false;
        }
        i += 1;
    }
    all && v.len() > 5
}

/// Which of the subdirectories of the save root (by name, in listing order)
/// holds the saves: the first that looks like a Steam ID, else the first one.
pub fn find_steam_id_dir(dir_names: &Vec<String>) -> (r: Option<usize>)
    ensures
        match r {
            Some(i) => i < dir_names@.len() && ((is_steam_id_name(dir_names@[i as int]@)
                && forall|j: int| 0 <= j < i ==> !is_steam_id_name(#[trigger] dir_names@[j]@))
                || (i == 0 && forall|j: int|
                0 <= j < dir_names@.len() ==> !is_steam_id_name(#[trigger] dir_names@[j]@))),
            None => dir_names@.len() == 0,
        },
{
    let mut i: usize = 0;
    while i < dir_names.len()
        invariant
            i <= dir_names@.len(),
            forall|j: int| 0 <= j < i ==> !is_steam_id_name(#[trigger] dir_names@[j]@),
        decreases dir_names@.len() - i,
    {
        if looks_like_steam_id(dir_names[i].as_str()) {
            return Some(i);
        }
        i += 1;
    }
    if dir_names.len() > 0 {
        Some(0)
    } else {
        None
    }
}

/// Reading a little-endian `i32`: the value lies in the `i32` range, it is
/// negative exactly when the top byte has its high bit set, and with a zero
/// top byte it is the plain sum of the lower bytes by their place values.
pub proof fn law_le_i32(b0: u8, b1: u8, b2: u8, b3: u8)
    ensures
        i32::MIN <= le_i32(b0, b1, b2, b3) <= i32::MAX,
        le_i32(b0, b1, b2, b3) < 0 <==> b3 >= 128,
        le_i32(b0, b1, b2, 0) == b0 + 256 * b1 + 65536 * b2,
        le_i32(b0, 0, 0, 0) == b0,
        le_i32(b0, b1, b2, b3) == if b3 < 128 {
            b0 + 256 * b1 + 65536 * b2 + 16777216 * b3
        } else {
            b0 + 256 * b1 + 65536 * b2 + 16777216 * (b3 - 256)
        },
{
}

/// A save file is a name ending in `.sav` after a non-empty stem: every such
/// name is one, and no name that does not end in `.sav` is. The saves listed
/// from a directory are its save files, each of them.
pub proof fn law_save_names(stem: Seq<char>, names: Seq<Seq<char>>)
    ensures
        stem.len() > 0 ==> is_save_name(stem + seq!['.', 's', 'a', 'v']),
        forall|n: Seq<char>|
            n.len() < 4 || n.subrange(n.len() - 4, n.len() as int) != seq!['.', 's', 'a', 'v']
                ==> !#[trigger] is_save_name(n),
        !is_save_name(seq!['.', 's', 'a', 'v']),
        forall|i: int| 0 <= i < save_names(names).len() ==> is_save_name(#[trigger] save_names(names)[i]),
        forall|i: int|
            0 <= i < names.len() && #[trigger] is_save_name(names[i]) ==> save_names(names).contains(
                names[i],
            ),
    decreases names.len(),
{
    reveal_strlit(".sav");
    assert(".sav"@ =~= seq!['.', 's', 'a', 'v']);
    let full = stem + seq!['.', 's', 'a', 'v'];
    assert(full.subrange(full.len() - 4, full.len() as int) =~= seq!['.', 's', 'a', 'v']);
    if names.len() > 0 {
        let n0 = names.drop_last();
        law_save_names(stem, n0);
        let sn = save_names(names);
        let s0 = save_names(n0);
        assert forall|i: int| 0 <= i < sn.len() implies is_save_name(#[trigger] sn[i]) by {
            if i < s0.len() {
                assert(sn[i] == s0[i]);
            }
        }
        assert forall|i: int| 0 <= i < names.len() && #[trigger] is_save_name(names[i]) implies sn.contains(
            names[i],
        ) by {
            if i < n0.len() {
                assert(n0[i] == names[i]);
                let k = choose|k: int| 0 <= k < s0.len() && s0[k] == n0[i];
                assert(sn[k] == s0[k]);
            } else {
                assert(sn[sn.len() - 1] == names.last());
            }
        }
    }
}

/// A Steam ID directory name is a run of more than five ASCII digits: such a
/// run is one, and a name with any other character, or of five characters or
/// fewer, is not.
pub proof fn law_steam_id_name(name: Seq<char>)
    ensures
        name.len() > 5 && (forall|i: int| 0 <= i < name.len() ==> '0' <= #[trigger] name[i] <= '9')
            ==> is_steam_id_name(name),
        name.len() <= 5 ==> !is_steam_id_name(name),
        (exists|i: int| 0 <= i < name.len() && !('0' <= #[trigger] name[i] <= '9')) ==> !is_steam_id_name(
            name,
        ),
{
}

} // verus!
