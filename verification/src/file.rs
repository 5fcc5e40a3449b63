//! Source files known to the compiler.
use crate::arena::{is_default, lemma_world_space, Arena, Id, World};
use crate::error::{ErrorKind, Errors};
use vstd::prelude::*;

verus! {

/// Marks ids, worlds and arenas that belong to [`Files`].
#[derive(Debug)]
pub struct FileMarker;

/// The source files of a compilation, each with its contents and its path.
pub struct Files {
    pub ids: World<FileMarker>,
    pub sources: Arena<FileMarker, String>,
    pub paths: Arena<FileMarker, String>,
}

/// The identifier of a source file.
pub type FileId = Id<FileMarker>;

impl Files {
    /// The registry's internal consistency.
    pub open spec fn wf(&self) -> bool {
        &&& self.ids.wf()
        &&& self.sources.wf()
        &&& self.paths.wf()
    }

    /// The number of files registered so far.
    pub open spec fn count(&self) -> nat {
        self.ids.allocated()
    }

    /// Whether one more file can be registered.
    pub open spec fn has_room(&self) -> bool {
        self.count() < 4294967295
    }

    /// The contents of file `i`.
    pub open spec fn source_of(&self, i: nat) -> Seq<char> {
        self.sources.value_at(i)@
    }

    /// The path of file `i`.
    pub open spec fn path_of(&self, i: nat) -> Seq<char> {
        self.paths.value_at(i)@
    }

    /// Constructs an empty registry.
    pub fn new() -> (r: Self)
        ensures
            r.wf(),
            r.count() == 0,
            r.has_room(),
    {
        Files { ids: World::new(), sources: Arena::new(), paths: Arena::new() }
    }
}

impl Default for Files {
    fn default() -> (r: Self)
        ensures
            r.wf(),
            r.count() == 0,
            r.has_room(),
    {
        Files::new()
    }
}

/// A default string is empty.
pub proof fn lemma_default_string_empty(s: String)
    ensures
        is_default(s) ==> s@ == Seq::<char>::empty(),
{
}

/// Registers a file with the given contents and path; the new file is the one
/// after all files registered before, and it is always returned.
pub fn read_string(contents: String, path: &str, files: &mut Files) -> (r: Option<FileId>)
    requires
        old(files).wf(),
        old(files).has_room(),
    ensures
        final(files).wf(),
        final(files).count() == old(files).count() + 1,
        r matches Some(id) && id@ == old(files).count(),
        final(files).source_of(old(files).count()) == contents@,
        final(files).path_of(old(files).count()) == path@,
        forall|i: nat|
            i < old(files).count() ==> final(files).source_of(i) == old(files).source_of(i)
                && final(files).path_of(i) == old(files).path_of(i),
{
    proof {
        lemma_world_space(files.ids);
    }
    let id = files.ids.allocate();
    let ghost old_sources = files.sources.slots();
    let ghost old_paths = files.paths.slots();
    let id = id.put(&mut files.sources, contents);
    let id = id.put(&mut files.paths, path.to_owned());
    proof {
        assert forall|i: nat| i < old(files).count() implies final(files).source_of(i) == old(
            files,
        ).source_of(i) && final(files).path_of(i) == old(files).path_of(i) by {
            lemma_default_string_empty(old(files).sources.value_at(i));
            lemma_default_string_empty(files.sources.value_at(i));
            lemma_default_string_empty(old(files).paths.value_at(i));
            lemma_default_string_empty(files.paths.value_at(i));
        }
    }
    Some(id)
}

/// Reports that the file at `path` could not be read: an I/O error whose
/// message is `reason`, and an I/O error naming the file that it caused.
pub fn report_unreadable(errors: &mut Errors, reason: String, path: &str)
    requires
        old(errors).wf(),
        old(errors).has_room_for(2),
    ensures
        final(errors).wf(),
        final(errors).count() == old(errors).count() + 2,
        Errors::same_before(*old(errors), *final(errors), old(errors).count()),
        final(errors).kind_of(old(errors).count()) == ErrorKind::Io,
        final(errors).message_of(old(errors).count()) == reason@,
        final(errors).kind_of(old(errors).count() + 1) == ErrorKind::Io,
        final(errors).message_of(old(errors).count() + 1) == "Unable to open file \""@ + path@ + "\""@,
        final(errors).cause_of(old(errors).count() + 1) matches Some(c) && c@ == old(errors).count(),
{
    let mut msg = "Unable to open file \"".to_owned();
    msg.append(path);
    msg.append("\"");
    errors.log(ErrorKind::Io, reason).caused_by(ErrorKind::Io, msg);
}

} // verus!
