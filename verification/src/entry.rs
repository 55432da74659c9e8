//! Entry classification: raw names and file-type bits become typed,
//! hidden-aware directory entries.

use vstd::prelude::*;
use vstd::string::{StrSliceExecFns, StringExecFns};

verus! {

/// The closed set of kinds a directory entry can have. A symlink is one
/// kind of its own, never split by what it points at: classification never
/// follows the link.
#[derive(Clone, Copy, Debug, PartialEq, Eq, Structural)]
pub enum EntryType {
    File,
    Directory,
    BlockDevice,
    CharDevice,
    Fifo,
    Socket,
    Symlink,
}

/// File-type bits of one entry, as a stat/lstat-style probe reports them
/// without following symlinks.
#[derive(Clone, Copy, Debug, PartialEq, Eq, Structural)]
pub struct FileTypeProbe {
    pub is_symlink: bool,
    pub is_dir: bool,
    pub is_file: bool,
    pub is_block_device: bool,
    pub is_char_device: bool,
    pub is_fifo: bool,
    pub is_socket: bool,
}

/// A raw directory entry before classification: its decoded name, and the
/// file-type bits of its metadata where the metadata could be read.
pub struct RawEntry {
    pub name: String,
    pub probe: Option<FileTypeProbe>,
}

/// One classified directory entry: display name, kind, hidden flag.
pub struct DirectoryEntery {
    pub name: String,
    pub entry_type: EntryType,
    pub is_hidden: bool,
}

impl DirectoryEntery {
    /// The display name, exactly as classified.
    pub fn name(&self) -> (r: &String)
        ensures
            r == &self.name,
    {
        &self.name
    }

    /// The kind of the entry.
    pub fn entry_type(&self) -> (r: &EntryType)
        ensures
            r == &self.entry_type,
    {
        &self.entry_type
    }

    /// The hidden flag of the entry.
    pub fn is_hidden(&self) -> (r: &bool)
        ensures
            r == &self.is_hidden,
    {
        &self.is_hidden
    }

    /// An entry with exactly the given name, kind and hidden flag.
    pub fn new(name: &String, entry_type: &EntryType, is_hidden: &bool) -> (r: Self)
        ensures
            r.name == *name,
            r.entry_type == *entry_type,
            r.is_hidden == *is_hidden,
    {
        DirectoryEntery { name: name.clone(), entry_type: *entry_type, is_hidden: *is_hidden }
    }

    /// A copy with the same fields, for callers that keep the original.
    pub(crate) fn clone_entry(&self) -> (r: Self)
        ensures
            r == *self,
    {
        DirectoryEntery {
            name: self.name.clone(),
            entry_type: self.entry_type,
            is_hidden: self.is_hidden,
        }
    }
}

/// A name marks its entry hidden iff its first character is a dot.
pub open spec fn spec_is_hidden(s: Seq<char>) -> bool {
    s.len() > 0 && s[0] == '.'
}

/// Whether a raw name marks a hidden entry. An empty name is not hidden
/// and never a fault.
pub fn is_hidden(s: &str) -> (r: bool)
    ensures
        r == spec_is_hidden(s@),
{
    if s.unicode_len() > 0 {
        s.get_char(0) == '.'
    } else {
        false
    }
}

/// The kind the type bits call for: the symlink bit wins, then the
/// directory bit, then each special-file bit; a regular file, an entry with
/// no recognised bit, and an entry whose metadata could not be read all
/// fall back to `File`, so one unreadable entry never aborts a listing.
pub open spec fn spec_file_type(probe: Option<FileTypeProbe>) -> EntryType {
    match probe {
        Option::None => EntryType::File,
        Option::Some(p) => if p.is_symlink {
            EntryType::Symlink
        } else if p.is_dir {
            EntryType::Directory
        } else if p.is_block_device {
            EntryType::BlockDevice
        } else if p.is_char_device {
            EntryType::CharDevice
        } else if p.is_fifo {
            EntryType::Fifo
        } else if p.is_socket {
            EntryType::Socket
        } else {
            EntryType::File
        },
    }
}

/// Classifies one probe result; `None` stands for unreadable metadata.
pub fn get_file_type(probe: &Option<FileTypeProbe>) -> (t: EntryType)
    ensures
        t == spec_file_type(*probe),
{
    match probe {
        Option::None => EntryType::File,
        Option::Some(p) => {
            if p.is_symlink {
                EntryType::Symlink
            } else if p.is_dir {
                EntryType::Directory
            } else if p.is_block_device {
                EntryType::BlockDevice
            } else if p.is_char_device {
                EntryType::CharDevice
            } else if p.is_fifo {
                EntryType::Fifo
            } else if p.is_socket {
                EntryType::Socket
            } else {
                EntryType::File
            }
        },
    }
}

/// The sort-key base of an entry: its display name with exactly one
/// leading character (the dot) removed when the entry is hidden, and the
/// display name itself otherwise. The display name is never altered.
pub open spec fn visible_name(e: DirectoryEntery) -> Seq<char> {
    if e.is_hidden && e.name@.len() > 0 {
        e.name@.drop_first()
    } else {
        e.name@
    }
}

/// Returns the sort-key base of an entry as a fresh string; the entry and
/// its display name stay as they are.
pub fn get_entry_name_without_dot(entry: &DirectoryEntery) -> (r: String)
    ensures
        r@ == visible_name(*entry),
{
    if entry.is_hidden {
        let len = entry.name.as_str().unicode_len();
        if len > 0 {
            let stripped = entry.name.as_str().substring_char(1, len);
            proof {
                assert(stripped@ =~= entry.name@.drop_first());
            }
            String::from_str(stripped)
        } else {
            entry.name.clone()
        }
    } else {
        entry.name.clone()
    }
}

/// Law: for a hidden entry the sort-key base drops exactly one leading
/// character, and the display name keeps it: the name is that character —
/// the dot, when the hidden flag is truthful — followed by the base, with
/// nothing removed from the tail.
pub proof fn lemma_hidden_strip_exactly_one(e: DirectoryEntery)
    requires
        e.is_hidden,
        e.name@.len() > 0,
    ensures
        visible_name(e).len() == e.name@.len() - 1,
        e.name@ == seq![e.name@[0]] + visible_name(e),
        e.name@[0] == '.' ==> e.name@ == seq!['.'] + visible_name(e),
{
    assert(e.name@ =~= seq![e.name@[0]] + e.name@.drop_first());
}

/// The entry one raw record classifies to.
pub open spec fn spec_classify(f: RawEntry) -> DirectoryEntery {
    DirectoryEntery {
        name: f.name,
        entry_type: spec_file_type(f.probe),
        is_hidden: spec_is_hidden(f.name@),
    }
}

/// Classification of a whole record list: records with an empty name are
/// skipped, every other record becomes an entry, in order.
pub open spec fn spec_parse(s: Seq<RawEntry>) -> Seq<DirectoryEntery>
    decreases s.len(),
{
    if s.len() == 0 {
        Seq::empty()
    } else {
        let rest = spec_parse(s.drop_last());
        if s.last().name@.len() > 0 {
            rest.push(spec_classify(s.last()))
        } else {
            rest
        }
    }
}

/// Classifies a list of raw records into directory entries, skipping the
/// records whose name is empty.
pub fn parse_pathbuffs(files: &Vec<RawEntry>) -> (res: Vec<DirectoryEntery>)
    ensures
        res@ == spec_parse(files@),
{
    let mut res_buf: Vec<DirectoryEntery> = Vec::new();
    let mut i: usize = 0;
    while i < files.len()
        invariant
            i <= files@.len(),
            res_buf@ == spec_parse(files@.take(i as int)),
        decreases files@.len() - i,
    {
        let f = &files[i];
        if f.name.as_str().unicode_len() > 0 {
            let kind = get_file_type(&f.probe);
            let hidden = is_hidden(f.name.as_str());
            res_buf.push(DirectoryEntery::new(&f.name, &kind, &hidden));
        }
        proof {
            assert(files@.take(i + 1).drop_last() =~= files@.take(i as int));
            assert(files@.take(i + 1).last() == files@[i as int]);
        }
        i += 1;
    }
    proof {
        assert(files@.take(files@.len() as int) =~= files@);
    }
    res_buf
}

} // verus!
