//! The head of a graph file, and which files are read.
//!
//! A file must start with `TextureGraphFile(`, which doubles as the format's
//! magic; anything else is rejected before it is parsed.
use vstd::prelude::*;
use vstd::string::StrSliceExecFns;

use crate::graph::Graph;

verus! {

/// Not enforced on load; a path that is saved to without an extension gets it.
pub const FILE_EXTENSION: &'static str = "tgraph";

/// Current on-disk format version. An older one still loads; a newer one is
/// refused.
pub const CURRENT_FORMAT_VERSION: u32 = 2;

/// What a file starts with.
pub const MAGIC_PREFIX: &'static str = "TextureGraphFile(";

/// Human-authored header that travels with the graph. All fields are optional
/// in intent: empty strings and empty vectors are fine.
#[derive(Clone, Debug)]
pub struct FileMetadata {
    /// Human-readable name for the graph. May differ from the file's.
    pub name: String,
    /// Free-form description.
    pub description: Option<String>,
    pub authors: Vec<String>,
    /// ISO-8601 UTC. Supplied by the caller, so this crate needs no clock.
    pub modified: String,
    /// Version string of the application that wrote the file. Free-form.
    pub written_by: String,
}

impl Default for FileMetadata {
    fn default() -> (r: Self)
        ensures
            r.name@ == Seq::<char>::empty(),
            r.description is None,
            r.authors@ == Seq::<String>::empty(),
            r.modified@ == Seq::<char>::empty(),
            r.written_by@ == Seq::<char>::empty(),
    {
        FileMetadata {
            name: String::new(),
            description: None,
            authors: Vec::new(),
            modified: String::new(),
            written_by: String::new(),
        }
    }
}

/// Root on-disk record.
#[derive(Clone, Debug)]
pub struct TextureGraphFile {
    pub format_version: u32,
    pub metadata: FileMetadata,
    pub graph: Graph,
}

impl TextureGraphFile {
    /// Packages a graph at the current format version.
    pub fn new(metadata: FileMetadata, graph: Graph) -> (r: TextureGraphFile)
        ensures
            r == (TextureGraphFile { format_version: CURRENT_FORMAT_VERSION, metadata, graph }),
    {
        TextureGraphFile { format_version: CURRENT_FORMAT_VERSION, metadata, graph }
    }
}

/// Why a file is refused.
#[derive(Clone, Copy, Debug, PartialEq, Eq, Structural)]
pub enum FileError {
    /// The magic is missing.
    NotATextureGraph,
    /// A newer build wrote it.
    UnsupportedVersion(u32),
}

/// The characters that Unicode calls white space.
pub open spec fn is_white_space_spec(c: char) -> bool {
    let n = c as u32;
    ||| 0x09 <= n <= 0x0d
    ||| n == 0x20
    ||| n == 0x85
    ||| n == 0xa0
    ||| n == 0x1680
    ||| 0x2000 <= n <= 0x200a
    ||| n == 0x2028
    ||| n == 0x2029
    ||| n == 0x202f
    ||| n == 0x205f
    ||| n == 0x3000
}

/// True of the characters that Unicode calls white space.
#[verifier::when_used_as_spec(is_white_space_spec)]
pub fn is_white_space(c: char) -> (r: bool)
    ensures
        r == is_white_space_spec(c),
{
    let n: u32 = c as u32;
    (0x09 <= n && n <= 0x0d) || n == 0x20 || n == 0x85 || n == 0xa0 || n == 0x1680 || (0x2000 <= n
        && n <= 0x200a) || n == 0x2028 || n == 0x2029 || n == 0x202f || n == 0x205f || n == 0x3000
}

/// The text from its first character that is no white space on.
pub open spec fn trimmed(text: Seq<char>) -> Seq<char>
    decreases text.len(),
{
    if text.len() > 0 && is_white_space(text[0]) {
        trimmed(text.drop_first())
    } else {
        text
    }
}

proof fn lemma_trimmed(text: Seq<char>, n: int)
    requires
        0 <= n <= text.len(),
        forall|i: int| 0 <= i < n ==> is_white_space(#[trigger] text[i]),
        n < text.len() ==> !is_white_space(text[n]),
    ensures
        trimmed(text) == text.skip(n),
    decreases n,
{
    if n == 0 {
        assert(text.skip(0) =~= text);
    } else {
        let rest = text.drop_first();
        assert(is_white_space(text[0]));
        assert forall|i: int| 0 <= i < n - 1 implies is_white_space(#[trigger] rest[i]) by {
            assert(is_white_space(text[i + 1]));
        }
        lemma_trimmed(rest, n - 1);
        assert(rest.skip(n - 1) =~= text.skip(n));
    }
}

/// The text starts with the magic, white space aside.
pub open spec fn has_magic(text: Seq<char>) -> bool {
    MAGIC_PREFIX@.is_prefix_of(trimmed(text))
}

/// Refuses a text that does not start with the magic, white space aside.
pub fn check_magic(text: &str) -> (r: Result<(), FileError>)
    ensures
        r == (if has_magic(text@) {
            Ok::<(), FileError>(())
        } else {
            Err::<(), FileError>(FileError::NotATextureGraph)
        }),
{
    let len: usize = text.unicode_len();
    let mut n: usize = 0;
    while n < len && is_white_space(text.get_char(n))
        invariant
            n <= len,
            len == text@.len(),
            forall|i: int| 0 <= i < n ==> is_white_space(#[trigger] text@[i]),
        decreases len - n,
    {
        n += 1;
    }
    proof {
        lemma_trimmed(text@, n as int);
    }
    let ghost rest = text@.skip(n as int);
    let magic_len: usize = MAGIC_PREFIX.unicode_len();
    if len - n < magic_len {
        return Err(FileError::NotATextureGraph);
    }
    let mut i: usize = 0;
    while i < magic_len
        invariant
            n <= len,
            len == text@.len(),
            magic_len == MAGIC_PREFIX@.len(),
            magic_len <= len - n,
            i <= magic_len,
            rest == text@.skip(n as int),
            rest == trimmed(text@),
            forall|j: int| 0 <= j < i ==> #[trigger] MAGIC_PREFIX@[j] == rest[j],
        decreases magic_len - i,
    {
        if MAGIC_PREFIX.get_char(i) != text.get_char(n + i) {
            assert(rest[i as int] == text@[n + i]);
            assert(!MAGIC_PREFIX@.is_prefix_of(rest)) by {
                if MAGIC_PREFIX@.is_prefix_of(rest) {
                    assert(rest.subrange(0, magic_len as int)[i as int] == rest[i as int]);
                }
            }
            return Err(FileError::NotATextureGraph);
        }
        i += 1;
    }
    assert(MAGIC_PREFIX@ =~= rest.subrange(0, magic_len as int));
    Ok(())
}

/// Refuses a version that is newer than this build's.
pub fn check_version(format_version: u32) -> (r: Result<(), FileError>)
    ensures
        r == (if format_version > CURRENT_FORMAT_VERSION {
            Err::<(), FileError>(FileError::UnsupportedVersion(format_version))
        } else {
            Ok::<(), FileError>(())
        }),
{
    if format_version > CURRENT_FORMAT_VERSION {
        Err(FileError::UnsupportedVersion(format_version))
    } else {
        Ok(())
    }
}

/// Leading white space does not count, and a text without any stands for
/// itself.
pub proof fn law_leading_white_space_is_dropped(space: Seq<char>, text: Seq<char>)
    requires
        forall|i: int| 0 <= i < space.len() ==> is_white_space(#[trigger] space[i]),
    ensures
        trimmed(space + text) == trimmed(text),
        text.len() == 0 || !is_white_space(text[0]) ==> trimmed(text) == text,
        trimmed(text).len() > 0 ==> !is_white_space(trimmed(text)[0]),
    decreases space.len() + text.len(),
{
    if space.len() > 0 {
        assert(is_white_space(space[0]));
        let rest = space.drop_first();
        assert forall|i: int| 0 <= i < rest.len() implies is_white_space(#[trigger] rest[i]) by {
            assert(is_white_space(space[i + 1]));
        }
        assert((space + text).drop_first() =~= rest + text);
        law_leading_white_space_is_dropped(rest, text);
    } else {
        assert(space + text =~= text);
        if text.len() > 0 {
            law_leading_white_space_is_dropped(space, text.drop_first());
        }
    }
}

/// A text is taken where white space, or nothing, stands before the magic, and
/// whatever stands behind it. One that starts otherwise is not.
pub proof fn law_magic_stands_first(space: Seq<char>, rest: Seq<char>, first: char)
    requires
        forall|i: int| 0 <= i < space.len() ==> is_white_space(#[trigger] space[i]),
        !is_white_space(first),
        first != 'T',
    ensures
        has_magic(space + "TextureGraphFile("@ + rest),
        !has_magic(space + seq![first] + rest),
        !has_magic(space),
{
    let magic = "TextureGraphFile("@;
    reveal_strlit("TextureGraphFile(");
    assert(magic == MAGIC_PREFIX@);
    assert(magic[0] == 'T');
    let good = magic + rest;
    assert(space + magic + rest =~= space + good);
    law_leading_white_space_is_dropped(space, good);
    assert(good[0] == 'T');
    assert(good.subrange(0, magic.len() as int) =~= magic);
    let bad = seq![first] + rest;
    assert(space + seq![first] + rest =~= space + bad);
    law_leading_white_space_is_dropped(space, bad);
    if magic.is_prefix_of(bad) {
        assert(bad.subrange(0, magic.len() as int)[0] == bad[0]);
    }
    law_leading_white_space_is_dropped(space, Seq::empty());
    assert(space + Seq::<char>::empty() =~= space);
}

/// The white space characters, one by one.
pub proof fn law_white_space_characters(c: char)
    ensures
        is_white_space(c) <==> {
            ||| c as u32 == 9 || c as u32 == 10 || c as u32 == 11 || c as u32 == 12 || c as u32 == 13
            ||| c as u32 == 32 || c as u32 == 133 || c as u32 == 160 || c as u32 == 5760
            ||| c as u32 == 8192 || c as u32 == 8193 || c as u32 == 8194 || c as u32 == 8195
            ||| c as u32 == 8196 || c as u32 == 8197 || c as u32 == 8198 || c as u32 == 8199
            ||| c as u32 == 8200 || c as u32 == 8201 || c as u32 == 8202
            ||| c as u32 == 8232 || c as u32 == 8233 || c as u32 == 8239 || c as u32 == 8287
            ||| c as u32 == 12288
        },
{
}

/// A packaged graph is of a version that this build reads. A newer version is
/// refused with its number, and an older one is read.
pub proof fn law_files_of_newer_builds_are_refused(
    metadata: FileMetadata,
    graph: Graph,
    file: TextureGraphFile,
    version: u32,
    r: Result<(), FileError>,
)
    requires
        call_ensures(TextureGraphFile::new, (metadata, graph), file),
        call_ensures(check_version, (version,), r),
    ensures
        file.graph == graph && file.metadata == metadata && file.format_version == 2,
        FILE_EXTENSION@ == "tgraph"@,
        version <= file.format_version ==> r is Ok,
        version > file.format_version ==> r == Err::<(), FileError>(
            FileError::UnsupportedVersion(version),
        ),
{
}

/// A text is refused exactly where it does not start with the magic.
pub proof fn law_texts_without_magic_are_refused(text: &str, r: Result<(), FileError>)
    requires
        call_ensures(check_magic, (text,), r),
    ensures
        r is Ok <==> has_magic(text@),
        r is Err ==> r->Err_0 is NotATextureGraph,
{
}

} // verus!
