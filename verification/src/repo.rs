use vstd::prelude::*;
use crate::commit::{Commit, CommitV};
use crate::digest::{digest_entries, digest_of, hex_chars_of, hex_encode, lemma_hex_chars_len};
use crate::errors::WTSError;
use crate::store::KvStore;
use crate::tensor::{EntryV, TensorCollection};
use crate::text::{lemma_hex_not_ws, lemma_trim_id, trim_chars, trim_exec};
use crate::time::{UnixTimestamp, now_micros, str_eq_chars, timestamp_from_micros};
use vstd::slice::slice_to_vec;

verus! {

/// The reference path prefix of the branch namespace.
pub open spec fn heads_prefix() -> Seq<char> {
    seq!['r', 'e', 'f', 's', '/', 'h', 'e', 'a', 'd', 's', '/']
}

/// The reference path prefix of the tag namespace.
pub open spec fn tags_prefix() -> Seq<char> {
    seq!['r', 'e', 'f', 's', '/', 't', 'a', 'g', 's', '/']
}

/// The name of the current-branch pointer file.
pub open spec fn head_name() -> Seq<char> {
    seq!['H', 'E', 'A', 'D']
}

/// A named pointer to a commit digest.
pub struct Refernce {
    pub name: String,
    pub commit_hash: [u8; 64],
}

/// The in-memory model of a repository: the four persisted structures and
/// the current-branch pointer, each keyed by the text that names it on disk.
pub struct Repository {
    initialized: bool,
    head: Option<String>,
    objects: KvStore<TensorCollection>,
    commits: KvStore<Commit>,
    heads: KvStore<String>,
    tags: KvStore<String>,
}

impl Repository {
    /// Whether the control structures have been laid out.
    pub closed spec fn is_init(self) -> bool {
        self.initialized
    }

    /// The stored tensor collections, keyed by hex digest.
    pub closed spec fn objects_map(self) -> Map<Seq<char>, Seq<EntryV>> {
        Map::new(
            |k: Seq<char>| self.objects.spec_get(k) is Some,
            |k: Seq<char>|
                match self.objects.spec_get(k) {
                    Some(c) => c.entry_seq(),
                    None => Seq::empty(),
                },
        )
    }

    /// The stored commit records, keyed by hex digest.
    pub closed spec fn commits_map(self) -> Map<Seq<char>, CommitV> {
        Map::new(
            |k: Seq<char>| self.commits.spec_get(k) is Some,
            |k: Seq<char>|
                match self.commits.spec_get(k) {
                    Some(c) => c@,
                    None => (CommitV {
                        hash: Seq::empty(),
                        parent_hash: None,
                        timestamp: (UnixTimestamp { secs: 0, micros: 0 }),
                        message: Seq::empty(),
                        metadata: None,
                    }),
                },
        )
    }

    /// The branch pointers, keyed by branch name.
    pub closed spec fn heads_map(self) -> Map<Seq<char>, Seq<char>> {
        Map::new(
            |k: Seq<char>| self.heads.spec_get(k) is Some,
            |k: Seq<char>|
                match self.heads.spec_get(k) {
                    Some(s) => s@,
                    None => Seq::empty(),
                },
        )
    }

    /// The tag pointers, keyed by tag name.
    pub closed spec fn tags_map(self) -> Map<Seq<char>, Seq<char>> {
        Map::new(
            |k: Seq<char>| self.tags.spec_get(k) is Some,
            |k: Seq<char>|
                match self.tags.spec_get(k) {
                    Some(s) => s@,
                    None => Seq::empty(),
                },
        )
    }

    /// The text of the current-branch pointer.
    pub closed spec fn head_text(self) -> Option<Seq<char>> {
        match self.head {
            Some(s) => Some(s@),
            None => None,
        }
    }

    /// What a reference path resolves to before trimming: a branch, a tag,
    /// or the current-branch pointer.
    pub open spec fn spec_resolve(self, path: Seq<char>) -> Option<Seq<char>> {
        if path.len() >= 11 && path.subrange(0, 11) == heads_prefix() {
            if self.heads_map().contains_key(path.skip(11)) {
                Some(self.heads_map()[path.skip(11)])
            } else {
                None
            }
        } else if path.len() >= 10 && path.subrange(0, 10) == tags_prefix() {
            if self.tags_map().contains_key(path.skip(10)) {
                Some(self.tags_map()[path.skip(10)])
            } else {
                None
            }
        } else if path == head_name() {
            self.head_text()
        } else {
            None
        }
    }

    /// A fresh, uninitialized repository holding nothing.
    pub fn new() -> (r: Self)
        ensures
            !r.is_init(),
            r.head_text() is None,
            r.objects_map() =~= Map::<Seq<char>, Seq<EntryV>>::empty(),
            r.commits_map() =~= Map::<Seq<char>, CommitV>::empty(),
            r.heads_map() =~= Map::<Seq<char>, Seq<char>>::empty(),
            r.tags_map() =~= Map::<Seq<char>, Seq<char>>::empty(),
    {
        Repository {
            initialized: false,
            head: None,
            objects: KvStore::new(),
            commits: KvStore::new(),
            heads: KvStore::new(),
            tags: KvStore::new(),
        }
    }

    /// Lays out the control structures and points the current branch at
    /// `main`. Idempotent, and it touches no stored object.
    pub fn init(&mut self)
        ensures
            final(self).is_init(),
            final(self).head_text() == Some("ref: ref/heads/main"@),
            final(self).objects_map() == old(self).objects_map(),
            final(self).commits_map() == old(self).commits_map(),
            final(self).heads_map() == old(self).heads_map(),
            final(self).tags_map() == old(self).tags_map(),
    {
        self.initialized = true;
        self.head = Some(String::from_str("ref: ref/heads/main"));
    }

    /// Hands the repository back when it has been initialized, and reports
    /// `EmptyRepository` when it has not.
    pub fn open(self) -> (r: Result<Self, WTSError>)
        ensures
            self.is_init() ==> (r matches Ok(rr) && rr == self),
            !self.is_init() ==> (r matches Err(e) && e is EmptyRepository),
    {
        if self.is_initialized() {
            Ok(self)
        } else {
            Err(WTSError::EmptyRepository)
        }
    }

    pub fn is_initialized(&self) -> (r: bool)
        ensures
            r == self.is_init(),
    {
        self.initialized
    }

    /// The content digest of a collection: deterministic, order-blind, and
    /// total on well-formed collections.
    pub fn hash_tensors(&self, tensors: &TensorCollection) -> (r: Result<[u8; 64], WTSError>)
        requires
            tensors.wf(),
        ensures
            r matches Ok(d) && d@ == digest_of(tensors.entry_seq()),
    {
        Ok(digest_entries(tensors))
    }

    /// Persists the collection under its content digest and records a commit
    /// under the same key, returning the hex digest. A second commit over
    /// identical tensor content reuses the key and replaces the record.
    pub fn create_commit(
        &mut self,
        tensors: &TensorCollection,
        message: &str,
        metadata: Option<String>,
        parent: Option<Vec<u8>>,
    ) -> (r: Result<String, WTSError>)
        requires
            tensors.wf(),
        ensures
            r matches Ok(h) && h@ == hex_chars_of(digest_of(tensors.entry_seq())) && h@.len()
                == 128,
            final(self).objects_map() == old(self).objects_map().insert(
                hex_chars_of(digest_of(tensors.entry_seq())),
                tensors.entry_seq(),
            ),
            final(self).commits_map().contains_key(hex_chars_of(digest_of(tensors.entry_seq()))),
            ({
                let c = final(self).commits_map()[hex_chars_of(digest_of(tensors.entry_seq()))];
                c.hash == digest_of(tensors.entry_seq()) && c.parent_hash == (match parent {
                    Some(p) => Some(p@),
                    None => None::<Seq<u8>>,
                }) && c.message == message@ && c.metadata == (match metadata {
                    Some(m) => Some(m@),
                    None => None::<Seq<char>>,
                }) && c.timestamp.wf()
            }),
            forall|k: Seq<char>|
                #![trigger final(self).commits_map().contains_key(k)]
                #![trigger old(self).commits_map().contains_key(k)]
                k != hex_chars_of(digest_of(tensors.entry_seq())) ==> (
                final(self).commits_map().contains_key(k) == old(self).commits_map().contains_key(
                    k,
                ) && (old(self).commits_map().contains_key(k) ==> final(self).commits_map()[k]
                    == old(self).commits_map()[k])),
            final(self).heads_map() == old(self).heads_map(),
            final(self).tags_map() == old(self).tags_map(),
            final(self).head_text() == old(self).head_text(),
            final(self).is_init() == old(self).is_init(),
    {
        let d = digest_entries(tensors);
        let hex = hex_encode(d.as_slice());
        let ts = timestamp_from_micros(now_micros());
        let record = Commit {
            hash: slice_to_vec(d.as_slice()),
            parent_hash: parent,
            timestamp: ts,
            message: String::from_str(message),
            metadata,
        };
        let hex_for_commit = hex.clone();
        let hex_for_object = hex.clone();
        self.commits.set(hex_for_commit, record);
        self.objects.set(hex_for_object, tensors.clone());
        proof {
            let hx = hex_chars_of(digest_of(tensors.entry_seq()));
            assert(final(self).objects_map() =~= old(self).objects_map().insert(
                hx,
                tensors.entry_seq(),
            ));
            lemma_hex_chars_len(digest_of(tensors.entry_seq()));
        }
        Ok(hex)
    }

    /// Points the branch `name` at the given hex digest, creating or moving
    /// it. No check is made that the digest names a stored commit.
    pub fn create_branch(&mut self, name: &str, commit_hash: &str) -> (r: Result<(), WTSError>)
        ensures
            r is Ok,
            final(self).heads_map() == old(self).heads_map().insert(name@, commit_hash@),
            final(self).tags_map() == old(self).tags_map(),
            final(self).objects_map() == old(self).objects_map(),
            final(self).commits_map() == old(self).commits_map(),
            final(self).head_text() == old(self).head_text(),
            final(self).is_init() == old(self).is_init(),
    {
        self.heads.set(String::from_str(name), String::from_str(commit_hash));
        proof {
            assert(final(self).heads_map() =~= old(self).heads_map().insert(name@, commit_hash@));
        }
        Ok(())
    }

    /// Points the tag `name` at the given hex digest.
    pub fn create_tag(&mut self, name: &str, commit_hash: &str) -> (r: Result<(), WTSError>)
        ensures
            r is Ok,
            final(self).tags_map() == old(self).tags_map().insert(name@, commit_hash@),
            final(self).heads_map() == old(self).heads_map(),
            final(self).objects_map() == old(self).objects_map(),
            final(self).commits_map() == old(self).commits_map(),
            final(self).head_text() == old(self).head_text(),
            final(self).is_init() == old(self).is_init(),
    {
        self.tags.set(String::from_str(name), String::from_str(commit_hash));
        proof {
            assert(final(self).tags_map() =~= old(self).tags_map().insert(name@, commit_hash@));
        }
        Ok(())
    }

    /// The commit record stored under the hex digest, or `ObjectNotFound`
    /// naming the missing key.
    pub fn get_commit(&self, hash: &str) -> (r: Result<Commit, WTSError>)
        ensures
            self.commits_map().contains_key(hash@) ==> (r matches Ok(c) && c@
                == self.commits_map()[hash@]),
            !self.commits_map().contains_key(hash@) ==> (r matches Err(e) && e matches
                WTSError::ObjectNotFound(s) && s@ == hash@),
    {
        match self.commits.get(hash) {
            Some(c) => Ok(c.clone()),
            None => Err(WTSError::ObjectNotFound(String::from_str(hash))),
        }
    }

    /// The tensor collection stored under the hex digest, or
    /// `ObjectNotFound` naming the missing key.
    pub fn get_obj(&self, hash: &str) -> (r: Result<TensorCollection, WTSError>)
        ensures
            self.objects_map().contains_key(hash@) ==> (r matches Ok(c) && c.entry_seq()
                == self.objects_map()[hash@]),
            !self.objects_map().contains_key(hash@) ==> (r matches Err(e) && e matches
                WTSError::ObjectNotFound(s) && s@ == hash@),
    {
        match self.objects.get(hash) {
            Some(c) => Ok(c.clone()),
            None => Err(WTSError::ObjectNotFound(String::from_str(hash))),
        }
    }

    /// Resolves a namespaced reference path and returns the trimmed text of
    /// the pointer file, or `InvalidReference` naming the path.
    pub fn get_reference(&self, ref_path: &str) -> (r: Result<String, WTSError>)
        ensures
            self.spec_resolve(ref_path@) matches Some(content) ==> (r matches Ok(s) && s@
                == trim_chars(content)),
            self.spec_resolve(ref_path@) is None ==> (r matches Err(e) && e matches
                WTSError::InvalidReference(p) && p@ == ref_path@),
    {
        proof {
            reveal_strlit("refs/heads/");
            reveal_strlit("refs/tags/");
            reveal_strlit("HEAD");
            assert("refs/heads/"@ =~= heads_prefix());
            assert("refs/tags/"@ =~= tags_prefix());
            assert("HEAD"@ =~= head_name());
        }
        let n = ref_path.unicode_len();
        if has_prefix(ref_path, "refs/heads/") {
            let name = ref_path.substring_char(11, n);
            match self.heads.get(name) {
                Some(content) => {
                    return Ok(trim_exec(content.as_str()));
                },
                None => {
                    return Err(WTSError::InvalidReference(String::from_str(ref_path)));
                },
            }
        }
        if has_prefix(ref_path, "refs/tags/") {
            let name = ref_path.substring_char(10, n);
            match self.tags.get(name) {
                Some(content) => {
                    return Ok(trim_exec(content.as_str()));
                },
                None => {
                    return Err(WTSError::InvalidReference(String::from_str(ref_path)));
                },
            }
        }
        if str_eq_chars(ref_path, "HEAD") {
            match &self.head {
                Some(content) => {
                    return Ok(trim_exec(content.as_str()));
                },
                None => {
                    return Err(WTSError::InvalidReference(String::from_str(ref_path)));
                },
            }
        }
        Err(WTSError::InvalidReference(String::from_str(ref_path)))
    }
}

/// The relative location of a commit record under the repository root.
pub fn commit_rel_path(hex: &str) -> (r: String)
    ensures
        r@ == ".wts/commits/"@ + hex@ + ".json"@,
{
    let mut out = String::from_str(".wts/commits/");
    out.append(hex);
    out.append(".json");
    out
}

/// The relative location of an object blob under the repository root.
pub fn object_rel_path(hex: &str) -> (r: String)
    ensures
        r@ == ".wts/objects/"@ + hex@,
{
    let mut out = String::from_str(".wts/objects/");
    out.append(hex);
    out
}

/// The relative location of a branch pointer under the repository root.
pub fn branch_rel_path(name: &str) -> (r: String)
    ensures
        r@ == ".wts/refs/heads/"@ + name@,
{
    let mut out = String::from_str(".wts/refs/heads/");
    out.append(name);
    out
}

/// The relative location of a tag pointer under the repository root.
pub fn tag_rel_path(name: &str) -> (r: String)
    ensures
        r@ == ".wts/refs/tags/"@ + name@,
{
    let mut out = String::from_str(".wts/refs/tags/");
    out.append(name);
    out
}

/// The relative location of the current-branch pointer.
pub fn head_rel_path() -> (r: String)
    ensures
        r@ == ".wts/HEAD"@,
{
    String::from_str(".wts/HEAD")
}

/// The text written into the current-branch pointer at initialization.
pub fn default_head_content() -> (r: String)
    ensures
        r@ == "ref: ref/heads/main"@,
{
    String::from_str("ref: ref/heads/main")
}

/// Decides whether `p` is a prefix of `s`.
pub fn has_prefix(s: &str, p: &str) -> (r: bool)
    ensures
        r == (s@.len() >= p@.len() && s@.subrange(0, p@.len() as int) == p@),
{
    let pn = p.unicode_len();
    let sn = s.unicode_len();
    if sn < pn {
        return false;
    }
    let mut i: usize = 0;
    while i < pn
        invariant
            pn == p@.len(),
            sn == s@.len(),
            pn <= sn,
            i <= pn,
            forall|j: int| 0 <= j < i ==> s@[j] == p@[j],
        decreases pn - i,
    {
        if s.get_char(i) != p.get_char(i) {
            proof {
                assert(s@[i as int] != p@[i as int]);
                assert(s@.subrange(0, pn as int)[i as int] == s@[i as int]);
            }
            return false;
        }
        i = i + 1;
    }
    proof {
        assert(s@.subrange(0, pn as int) =~= p@);
    }
    true
}

/// An object written under a key is read back unchanged: the store keyed by
/// content digest returns, for the digest of a collection, exactly the
/// entries that were put there.
pub proof fn lemma_object_round_trip(m: Map<Seq<char>, Seq<EntryV>>, k: Seq<char>, s: Seq<EntryV>)
    ensures
        m.insert(k, s).contains_key(k),
        m.insert(k, s)[k] == s,
{
}

/// A commit record written under a key is read back unchanged.
pub proof fn lemma_commit_round_trip(m: Map<Seq<char>, CommitV>, k: Seq<char>, c: CommitV)
    ensures
        m.insert(k, c).contains_key(k),
        m.insert(k, c)[k] == c,
{
}

/// Committing the same collection twice yields the same hex key both times
/// (the digest is a function of the entries alone), and the second record
/// replaces the first under that key: nothing else changes.
pub proof fn lemma_commit_replaces(m: Map<Seq<char>, CommitV>, k: Seq<char>, c1: CommitV, c2: CommitV)
    ensures
        m.insert(k, c1).insert(k, c2) == m.insert(k, c2),
        m.insert(k, c1).insert(k, c2)[k] == c2,
{
    assert(m.insert(k, c1).insert(k, c2) =~= m.insert(k, c2));
}

/// Creating a branch at a hex digest and resolving it through the branch
/// namespace returns that digest exactly: hex text carries no whitespace,
/// so trimming leaves it whole.
pub proof fn lemma_branch_then_resolve(r: Repository, name: Seq<char>, h: Seq<u8>)
    requires
        r.heads_map().contains_key(name),
        r.heads_map()[name] == hex_chars_of(h),
    ensures
        r.spec_resolve(heads_prefix() + name) == Some(hex_chars_of(h)),
        trim_chars(hex_chars_of(h)) == hex_chars_of(h),
{
    let path = heads_prefix() + name;
    assert(path.subrange(0, 11) =~= heads_prefix());
    assert(path.skip(11) =~= name);
    lemma_hex_not_ws(h);
    lemma_trim_id(hex_chars_of(h));
}

} // verus!
