//! Where a trashed file goes and what its `.trashinfo` record says, after the
//! FreeDesktop trash layout (`files/` and `info/` under a trash directory).
use vstd::prelude::*;

use crate::model::TrashKey;
use crate::paths::{path_file_name, path_file_name_of, path_strip_of};
use crate::schedule::{join_component, join_path};
use crate::text::{decimal, push_decimal, push_str};
use vstd::utf8::encode_utf8;

verus! {

/// The kind of trash directory: the user's own, one at the top of another mount, or the
/// macOS one (which has no `info/` records).
#[derive(Clone, Copy, Debug, PartialEq, Eq, Structural)]
pub enum TrashKind {
    Home,
    Top,
    Macos,
}

/// A trash directory and its kind.
#[derive(Clone, Debug)]
pub struct TrashLocation {
    pub root: String,
    pub kind: TrashKind,
}

/// The user's trash on Linux: the home trash when the source is on the same device as
/// the data directory; else `.Trash/<uid>` at the mount's top when that shared directory
/// is valid; else `.Trash-<uid>` there.
pub open spec fn trash_root_of(data_dir: Seq<char>, same_device: bool, mount: Seq<char>, shared_valid: bool, uid: nat) -> (Seq<char>, TrashKind) {
    if same_device {
        (join_component(data_dir, "Trash"@), TrashKind::Home)
    } else if shared_valid {
        (join_component(join_component(mount, ".Trash"@), decimal(uid)), TrashKind::Top)
    } else {
        (join_component(mount, ".Trash-"@ + decimal(uid)), TrashKind::Top)
    }
}

/// See `trash_root_of`.
pub fn linux_trash_location(data_dir: &str, same_device: bool, mount: &str, shared_valid: bool, uid: u32) -> (r: TrashLocation)
    ensures
        (r.root@, r.kind) == trash_root_of(data_dir@, same_device, mount@, shared_valid, uid as nat),
{
    if same_device {
        TrashLocation { root: join_path(data_dir, "Trash"), kind: TrashKind::Home }
    } else if shared_valid {
        let shared = join_path(mount, ".Trash");
        let mut id = String::new();
        push_decimal(&mut id, uid as u64);
        TrashLocation { root: join_path(shared.as_str(), id.as_str()), kind: TrashKind::Top }
    } else {
        let mut name = String::new();
        push_str(&mut name, ".Trash-");
        push_decimal(&mut name, uid as u64);
        TrashLocation { root: join_path(mount, name.as_str()), kind: TrashKind::Top }
    }
}

/// The `number`th name tried for `base`: `base`, then `base.1`, `base.2`, ...
pub open spec fn trash_name_of(base: Seq<char>, number: nat) -> Seq<char> {
    if number == 0 {
        base
    } else {
        base + "."@ + decimal(number)
    }
}

/// See `trash_name_of`.
pub fn trash_name(base: &str, number: u64) -> (r: String)
    ensures
        r@ == trash_name_of(base@, number as nat),
{
    let mut out = String::new();
    push_str(&mut out, base);
    if number != 0 {
        push_str(&mut out, ".");
        push_decimal(&mut out, number);
    }
    out
}

/// Where trashed files go: `files/` under the trash, or the trash itself on macOS.
pub open spec fn files_dir_of(kind: TrashKind, root: Seq<char>) -> Seq<char> {
    if kind == TrashKind::Macos {
        root
    } else {
        join_component(root, "files"@)
    }
}

/// The `number`th key tried for trashing `source`, when it has a file name.
pub open spec fn trash_key_fits(k: TrashKey, loc: TrashLocation, source: Seq<char>, number: nat) -> bool {
    match path_file_name_of(source) {
        Some(base) => {
            let name = trash_name_of(base, number);
            &&& k.files_path@ == join_component(files_dir_of(loc.kind, loc.root@), name)
            &&& k.original_path@ == source
            &&& (loc.kind == TrashKind::Macos ==> k.info_path is None)
            &&& (loc.kind != TrashKind::Macos ==> k.info_path is Some && k.info_path->Some_0@ == join_component(
                join_component(loc.root@, "info"@),
                name + ".trashinfo"@,
            ))
        },
        None => false,
    }
}

/// The `number`th key tried for trashing `source` into `location`; none when the
/// source has no file name.
pub fn trash_key(location: &TrashLocation, source: &str, number: u64) -> (r: Option<TrashKey>)
    ensures
        path_file_name_of(source@) is None <==> r is None,
        r matches Some(k) ==> trash_key_fits(k, *location, source@, number as nat),
{
    let base = match path_file_name(source) {
        Some(b) => b,
        None => return None,
    };
    let name = trash_name(base.as_str(), number);
    let files_path = if location.kind == TrashKind::Macos {
        join_path(location.root.as_str(), name.as_str())
    } else {
        let files = join_path(location.root.as_str(), "files");
        join_path(files.as_str(), name.as_str())
    };
    let info_path = if location.kind == TrashKind::Macos {
        None
    } else {
        let info = join_path(location.root.as_str(), "info");
        let mut file = name.clone();
        push_str(&mut file, ".trashinfo");
        Some(join_path(info.as_str(), file.as_str()))
    };
    let mut original = String::new();
    push_str(&mut original, source);
    Some(TrashKey { files_path, info_path, original_path: original })
}

/// `s` without the slashes it starts with.
pub open spec fn trim_leading_slashes(s: Seq<char>) -> Seq<char>
    decreases s.len(),
{
    if s.len() > 0 && s[0] == '/' {
        trim_leading_slashes(s.drop_first())
    } else {
        s
    }
}

/// The path written in the record: relative to the mount's top for a trash there,
/// else the whole path.
pub open spec fn trash_path_field_of(kind: TrashKind, source: Seq<char>, mount: Seq<char>) -> Seq<char> {
    if kind == TrashKind::Top {
        trim_leading_slashes(
            match path_strip_of(source, mount) {
                Some(rel) => rel,
                None => source,
            },
        )
    } else {
        source
    }
}

/// See `trash_path_field_of`.
pub fn trash_path_field(kind: TrashKind, source: &str, mount: &str) -> (r: String)
    ensures
        r@ == trash_path_field_of(kind, source@, mount@),
{
    let mut out = String::new();
    if kind == TrashKind::Top {
        let rel = match crate::paths::path_strip_prefix(source, mount) {
            Some(r) => r,
            None => {
                let mut s = String::new();
                push_str(&mut s, source);
                s
            },
        };
        let cs = crate::text::chars_of(rel.as_str());
        let mut i: usize = 0;
        assert(cs@.skip(0) =~= cs@);
        while i < cs.len() && cs[i] == '/'
            invariant
                i <= cs.len(),
                trim_leading_slashes(cs@) == trim_leading_slashes(cs@.skip(i as int)),
            decreases cs.len() - i,
        {
            proof {
                assert(cs@.skip(i as int).drop_first() =~= cs@.skip(i + 1));
            }
            i += 1;
        }
        proof {
            if i < cs.len() {
                assert(cs@.skip(i as int)[0] == cs@[i as int]);
            } else {
                assert(cs@.skip(i as int) =~= Seq::<char>::empty());
            }
        }
        crate::text::push_range(&mut out, &cs, i, cs.len());
        assert(out@ =~= cs@.skip(i as int));
    } else {
        push_str(&mut out, source);
    }
    out
}

/// The bytes that this tool's trash records write as `%XX`: every byte outside ASCII,
/// the control bytes, space, and the punctuation other than `-`, `.`, `/` and `_`.
pub open spec fn path_byte_encoded(b: u8) -> bool {
    b >= 0x7b || b <= 0x2c || (0x3a <= b && b <= 0x40) || (0x5b <= b && b <= 0x5e) || b == 0x60
}

pub open spec fn hex_upper(d: nat) -> char {
    if d < 10 {
        (('0' as u32) + d) as char
    } else {
        (('A' as u32) + d - 10) as char
    }
}

/// `%` and the byte in two uppercase hexadecimal digits.
pub open spec fn percent_byte(b: u8) -> Seq<char> {
    seq!['%', hex_upper((b / 16) as nat), hex_upper((b % 16) as nat)]
}

/// The bytes, those of `path_byte_encoded` percent-encoded and the others as characters.
pub open spec fn percent_path(bytes: Seq<u8>) -> Seq<char>
    decreases bytes.len(),
{
    if bytes.len() == 0 {
        Seq::empty()
    } else {
        let b = bytes.last();
        percent_path(bytes.drop_last()) + if path_byte_encoded(b) {
            percent_byte(b)
        } else {
            seq![b as char]
        }
    }
}

/// `percent_encoding::percent_encode_byte`: `%` followed by the byte in two uppercase
/// hexadecimal digits, as the crate's table gives it.
#[verifier::external_body]
fn encode_byte(b: u8) -> (r: &'static str)
    ensures
        r@ == percent_byte(b),
{
    percent_encoding::percent_encode_byte(b)
}

/// The UTF-8 bytes of `s` as `percent_path` writes them.
pub fn encode_trash_path(s: &str) -> (r: String)
    ensures
        r@ == percent_path(encode_utf8(s@)),
{
    let bytes = s.as_bytes();
    let mut out = String::new();
    let mut i: usize = 0;
    while i < bytes.len()
        invariant
            i <= bytes@.len(),
            bytes@ == encode_utf8(s@),
            out@ == percent_path(bytes@.take(i as int)),
        decreases bytes.len() - i,
    {
        let b = bytes[i];
        proof {
            assert(bytes@.take(i + 1).drop_last() =~= bytes@.take(i as int));
        }
        if b >= 0x7b || b <= 0x2c || (0x3a <= b && b <= 0x40) || (0x5b <= b && b <= 0x5e) || b == 0x60 {
            push_str(&mut out, encode_byte(b));
        } else {
            crate::text::push_char(&mut out, b as char);
        }
        i += 1;
    }
    assert(bytes@.take(i as int) =~= bytes@);
    out
}

/// The `.trashinfo` record: the encoded path, the deletion date, and the journal that
/// trashed the file.
pub open spec fn trash_info_of(path_field: Seq<char>, date: Seq<char>, journal_id: Seq<char>) -> Seq<char> {
    "[Trash Info]\nPath="@ + percent_path(encode_utf8(path_field)) + "\nDeletionDate="@ + date
        + "\nX-Remodeco-Journal="@ + journal_id + "\n"@
}

/// See `trash_info_of`.
pub fn trash_info_body(path_field: &str, date: &str, journal_id: &str) -> (r: String)
    ensures
        r@ == trash_info_of(path_field@, date@, journal_id@),
{
    let mut out = String::new();
    push_str(&mut out, "[Trash Info]\nPath=");
    let enc = encode_trash_path(path_field);
    push_str(&mut out, enc.as_str());
    push_str(&mut out, "\nDeletionDate=");
    push_str(&mut out, date);
    push_str(&mut out, "\nX-Remodeco-Journal=");
    push_str(&mut out, journal_id);
    push_str(&mut out, "\n");
    out
}

} // verus!
