//! Where sessions and file states are stored.

use crate::text::{law_numeral_injective, law_numeral_read_back, numeral, push_numeral, reads_as};
use std::collections::hash_map::DefaultHasher;
use std::hash::{Hash, Hasher};
use vstd::prelude::*;
use vstd::std_specs::hash::DefaultHasherAdditionalSpecFns;
use vstd::string::StringExecFns;

verus! {

/// A place below the directory of the editor's data: the names to be joined on to that directory,
/// one after the other.
pub struct Location {
    pub names: Vec<String>,
}

/// A place below the directory of the editor's data, as a mathematical value.
pub type Place = Seq<Seq<char>>;

impl View for Location {
    type V = Place;

    open spec fn view(&self) -> Place {
        Seq::new(self.names@.len(), |i: int| self.names@[i]@)
    }
}

/// The byte sequences that the path with the text `path` hands to a hasher, one after the other.
pub uninterp spec fn path_hash_writes(path: Seq<char>) -> Seq<Seq<u8>>;

/// Whether the standard library holds the paths with the texts `a` and `b` equal, as it does those
/// that differ in repeated separators alone.
pub uninterp spec fn same_path(a: Seq<char>, b: Seq<char>) -> bool;

/// The hash of a path.
pub open spec fn path_hash(path: Seq<char>) -> u64 {
    DefaultHasher::spec_finish(path_hash_writes(path))
}

/// The name of the file that is stored under a hash.
pub open spec fn stored_name(hash: u64) -> Seq<char> {
    numeral(hash as nat, 16) + ".json"@
}

/// Where sessions are stored.
pub open spec fn sessions_place() -> Place {
    seq!["sessions"@]
}

/// Where file states are stored.
pub open spec fn file_states_place() -> Place {
    seq!["file_state"@]
}

/// Where the session of a workspace is stored.
pub open spec fn session_place(workspace: Seq<char>) -> Place {
    sessions_place().push(stored_name(path_hash(workspace)))
}

/// Where the state of a file is stored.
pub open spec fn file_state_place(file_path: Seq<char>) -> Place {
    file_states_place().push(stored_name(path_hash(file_path)))
}

impl Location {
    /// The place called `name` among the data.
    fn named(name: &str) -> (res: Location)
        ensures
            res@ == seq![name@],
    {
        let mut names: Vec<String> = Vec::new();
        names.push(name.to_owned());
        let res = Location { names };
        assert(res@ =~= seq![name@]);
        res
    }

    /// The place called `name` in this one.
    fn join(self, name: String) -> (res: Location)
        ensures
            res@ == self@.push(name@),
    {
        let ghost before = self@;
        let mut names = self.names;
        names.push(name);
        let res = Location { names };
        assert(res@ =~= before.push(name@));
        res
    }
}

/// Hands a path to a hasher: `Hash::hash` of `std::path::Path`.
///
/// Taken on trust: the path adds byte sequences to what the hasher was given before, and which ones
/// they are depends on the text of the path alone. And, as the documentation of `Hash` asks of every
/// type that has `Eq`: paths that are equal have the same hash. All this holds within one build of
/// the library; the standard library promises nothing across its releases or across target machines.
/// What the byte sequences are is left unsaid.
#[verifier::external_body]
fn hash_path(path: &str, hasher: &mut DefaultHasher)
    ensures
        final(hasher)@ == old(hasher)@ + path_hash_writes(path@),
        forall|other: Seq<char>| #[trigger]
            same_path(path@, other) ==> DefaultHasher::spec_finish(final(hasher)@)
                == DefaultHasher::spec_finish(old(hasher)@ + path_hash_writes(other)),
{
    std::path::Path::new(path).hash(hasher)
}

/// Compares two paths: `PartialEq::eq` of `std::path::Path`.
///
/// Taken on trust: the result depends on the texts of the paths alone, within one build of the
/// library. Which paths are equal is left unsaid.
#[verifier::external_body]
fn paths_equal(a: &str, b: &str) -> (res: bool)
    ensures
        res == same_path(a@, b@),
{
    std::path::Path::new(a) == std::path::Path::new(b)
}

/// Whether two texts stand for the same path, and so for the same stored state.
pub fn is_same_path(a: &str, b: &str) -> (res: bool)
    ensures
        res == same_path(a@, b@),
{
    paths_equal(a, b)
}

/// The hash of a path. It is the hash of every text of the path.
pub fn hash_of_path(path: &str) -> (hash: u64)
    ensures
        hash == path_hash(path@),
        forall|other: Seq<char>| #[trigger] same_path(path@, other) ==> hash == path_hash(other),
{
    let mut hasher = DefaultHasher::new();
    let ghost empty = hasher@;
    hash_path(path, &mut hasher);
    assert(hasher@ =~= path_hash_writes(path@));
    assert forall|other: Seq<char>| #[trigger] same_path(path@, other) implies path_hash(path@)
        == path_hash(other) by {
        assert(empty + path_hash_writes(other) =~= path_hash_writes(other));
    }
    hasher.finish()
}

/// The name of the file that is stored under a hash: the hash in hexadecimal digits.
pub fn file_name_for_hash(hash: u64) -> (name: String)
    ensures
        name@ == stored_name(hash),
{
    let mut name = String::new();
    push_numeral(&mut name, hash, 16);
    name.append(".json");
    assert(name@ =~= stored_name(hash));
    name
}

/// The directory of the sessions.
pub fn session_dir() -> (dir: Location)
    ensures
        dir@ == sessions_place(),
{
    Location::named("sessions")
}

/// The file of the session of the workspace at `workspace`. It is the same for every text of the
/// path.
pub fn session_file_for_cwd(workspace: &str) -> (file: Location)
    ensures
        file@ == session_place(workspace@),
        forall|other: Seq<char>| #[trigger]
            same_path(workspace@, other) ==> file@ == session_place(other),
{
    session_dir().join(file_name_for_hash(hash_of_path(workspace)))
}

/// The directory of the file states.
pub fn file_state_dir() -> (dir: Location)
    ensures
        dir@ == file_states_place(),
{
    Location::named("file_state")
}

/// The file that the state of the file at `file_path` is stored in. It is the same for every text of
/// the path.
pub fn file_state_path_for(file_path: &str) -> (file: Location)
    ensures
        file@ == file_state_place(file_path@),
        forall|other: Seq<char>| #[trigger]
            same_path(file_path@, other) ==> file@ == file_state_place(other),
{
    file_state_dir().join(file_name_for_hash(hash_of_path(file_path)))
}

/// Different hashes are stored under different names.
pub proof fn law_stored_name_injective(a: u64, b: u64)
    requires
        stored_name(a) == stored_name(b),
    ensures
        a == b,
{
    let na = numeral(a as nat, 16);
    let nb = numeral(b as nat, 16);
    assert(na =~= stored_name(a).take(stored_name(a).len() - ".json"@.len()));
    assert(nb =~= stored_name(b).take(stored_name(b).len() - ".json"@.len()));
    law_numeral_injective(a as nat, b as nat, 16);
}

/// `name` is the name of a JSON file, and one reads `hash` from what stands before the extension, in
/// hexadecimal digits.
pub open spec fn names_hash(name: Seq<char>, hash: u64) -> bool {
    exists|digits: Seq<char>| #[trigger]
        reads_as(digits, hash as int, 16) && name == digits + ".json"@
}

/// The session of a workspace is stored among the sessions, and the state of a file among the file
/// states, each under the hash of its path.
pub proof fn law_stored_under_hash(path: Seq<char>)
    ensures
        session_place(path).len() == 2,
        session_place(path)[0] == "sessions"@,
        names_hash(session_place(path)[1], path_hash(path)),
        file_state_place(path).len() == 2,
        file_state_place(path)[0] == "file_state"@,
        names_hash(file_state_place(path)[1], path_hash(path)),
{
    law_numeral_read_back(path_hash(path) as nat, 16);
}

/// The states of two files, and likewise the sessions of two workspaces, share a place exactly when
/// the paths have the same hash.
pub proof fn law_places_differ_as_hashes_do(a: Seq<char>, b: Seq<char>)
    ensures
        file_state_place(a) == file_state_place(b) <==> path_hash(a) == path_hash(b),
        session_place(a) == session_place(b) <==> path_hash(a) == path_hash(b),
{
    assert(file_state_place(a).last() == stored_name(path_hash(a)));
    assert(file_state_place(b).last() == stored_name(path_hash(b)));
    assert(session_place(a).last() == stored_name(path_hash(a)));
    assert(session_place(b).last() == stored_name(path_hash(b)));
    if stored_name(path_hash(a)) == stored_name(path_hash(b)) {
        law_stored_name_injective(path_hash(a), path_hash(b));
    }
}

/// No session is stored where a file state is.
pub proof fn law_sessions_apart_from_file_states(workspace: Seq<char>, file_path: Seq<char>)
    ensures
        session_place(workspace) != file_state_place(file_path),
{
    reveal_strlit("sessions");
    reveal_strlit("file_state");
    assert(session_place(workspace)[0] == "sessions"@);
    assert(file_state_place(file_path)[0] == "file_state"@);
    assert("sessions"@.len() != "file_state"@.len());
}

} // verus!
