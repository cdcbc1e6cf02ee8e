//! The vault store: the logical state of the vault as an ordered list of
//! leaf entries, each a valid path bound to its record text, with the
//! CRUD, move and listing operations and their consistency invariant.
//!
//! Encryption at rest is an external collaborator: the caller decrypts
//! entry texts before handing them in with `restore` and encrypts what the
//! store gives back before persisting it. A namespace directory has no
//! entry of its own; it exists exactly while some entry lives under it.
use vstd::prelude::*;

use crate::paths::{
    check_path, dir_prefix_of, lemma_dir_prefix_trans, lemma_valid_join, lemma_valid_split, norm,
    normalize, valid_path,
};
use crate::record::{
    apply_patch, clone_pairs, decodable, decoded, encoded_record, record_lines, PatchOp, Record,
    RecordView,
};
use crate::text::{find_char, str_eq, substring};
use crate::validators::{CredentialItem, ItemView};
use crate::Error;

verus! {

/// One stored credential: a normalized valid path and its record text.
struct Entry {
    path: String,
    contents: String,
}

/// The vault's logical state.
pub struct Vault {
    entries: Vec<Entry>,
}

/// Whether an entry with path `p` stands in `v`.
pub open spec fn has_file(v: Seq<(Seq<char>, Seq<char>)>, p: Seq<char>) -> bool {
    exists|i: int| 0 <= i < v.len() && (#[trigger] v[i]).0 == p
}

/// Index of the entry with path `p`; meaningful when `has_file` holds and
/// paths are unique.
pub open spec fn file_idx(v: Seq<(Seq<char>, Seq<char>)>, p: Seq<char>) -> int {
    choose|i: int| 0 <= i < v.len() && (#[trigger] v[i]).0 == p
}

/// The record text stored at path `p`.
pub open spec fn contents_of(v: Seq<(Seq<char>, Seq<char>)>, p: Seq<char>) -> Seq<char> {
    v[file_idx(v, p)].1
}

/// Whether `p` names a namespace directory: some entry lives under it.
pub open spec fn has_dir(v: Seq<(Seq<char>, Seq<char>)>, p: Seq<char>) -> bool {
    exists|i: int| 0 <= i < v.len() && dir_prefix_of(p, (#[trigger] v[i]).0)
}

/// Whether `p` is taken: an entry carries it, it names a directory, or an
/// entry stands on the way to it.
pub open spec fn occupied(v: Seq<(Seq<char>, Seq<char>)>, p: Seq<char>) -> bool {
    exists|i: int|
        0 <= i < v.len() && ((#[trigger] v[i]).0 == p || dir_prefix_of(p, v[i].0)
            || dir_prefix_of(v[i].0, p))
}

/// The vault invariant: every path valid, no two entries sharing a path,
/// and no entry's path naming a directory over another entry — a path is
/// a leaf or a namespace, never both.
pub open spec fn vault_wf(v: Seq<(Seq<char>, Seq<char>)>) -> bool {
    &&& forall|i: int| 0 <= i < v.len() ==> valid_path((#[trigger] v[i]).0)
    &&& forall|i: int, j: int|
        0 <= i < v.len() && 0 <= j < v.len() && i != j ==> (#[trigger] v[i]).0 != (
        #[trigger] v[j]).0
    &&& forall|i: int, j: int|
        0 <= i < v.len() && 0 <= j < v.len() ==> !dir_prefix_of(
            (#[trigger] v[i]).0,
            (#[trigger] v[j]).0,
        )
}

/// An index holding path `p` is the index `file_idx` picks, and `p`'s
/// contents are that entry's.
pub proof fn lemma_file_idx(v: Seq<(Seq<char>, Seq<char>)>, p: Seq<char>, i: int)
    requires
        vault_wf(v),
        0 <= i < v.len(),
        v[i].0 == p,
    ensures
        has_file(v, p),
        file_idx(v, p) == i,
        contents_of(v, p) == v[i].1,
{
    assert(has_file(v, p));
    let j = file_idx(v, p);
    assert(0 <= j < v.len() && v[j].0 == p);
}

/// Appending a fresh, unoccupied, valid path keeps the vault invariant.
proof fn lemma_wf_push(v: Seq<(Seq<char>, Seq<char>)>, p: Seq<char>, c: Seq<char>)
    requires
        vault_wf(v),
        valid_path(p),
        !occupied(v, p),
    ensures
        vault_wf(v.push((p, c))),
{
    let v2 = v.push((p, c));
    assert forall|i: int| 0 <= i < v2.len() implies valid_path((#[trigger] v2[i]).0) by {
        if i < v.len() {
            assert(v2[i] == v[i]);
        }
    }
    assert forall|i: int, j: int|
        0 <= i < v2.len() && 0 <= j < v2.len() && i != j implies (#[trigger] v2[i]).0 != (
    #[trigger] v2[j]).0 by {
        if i < v.len() && j < v.len() {
            assert(v2[i] == v[i] && v2[j] == v[j]);
        } else if i < v.len() {
            assert(v2[i] == v[i] && v2[j] == (p, c));
        } else {
            assert(v2[i] == (p, c) && v2[j] == v[j]);
        }
    }
    assert forall|i: int, j: int| 0 <= i < v2.len() && 0 <= j < v2.len() implies !dir_prefix_of(
        (#[trigger] v2[i]).0,
        (#[trigger] v2[j]).0,
    ) by {
        if i < v.len() && j < v.len() {
            assert(v2[i] == v[i] && v2[j] == v[j]);
        } else if i < v.len() {
            assert(v2[i] == v[i] && v2[j] == (p, c));
        } else if j < v.len() {
            assert(v2[i] == (p, c) && v2[j] == v[j]);
        } else {
            assert(v2[i] == (p, c) && v2[j] == (p, c));
        }
    }
}

/// Removing an entry keeps the vault invariant.
proof fn lemma_wf_remove(v: Seq<(Seq<char>, Seq<char>)>, k: int)
    requires
        vault_wf(v),
        0 <= k < v.len(),
    ensures
        vault_wf(v.remove(k)),
{
    let v2 = v.remove(k);
    assert forall|i: int| 0 <= i < v2.len() implies valid_path((#[trigger] v2[i]).0) by {
        if i < k {
            assert(v2[i] == v[i]);
        } else {
            assert(v2[i] == v[i + 1]);
        }
    }
    assert forall|i: int, j: int|
        0 <= i < v2.len() && 0 <= j < v2.len() && i != j implies (#[trigger] v2[i]).0 != (
    #[trigger] v2[j]).0 by {
        let i0 = if i < k { i } else { i + 1 };
        let j0 = if j < k { j } else { j + 1 };
        assert(v2[i] == v[i0] && v2[j] == v[j0]);
    }
    assert forall|i: int, j: int| 0 <= i < v2.len() && 0 <= j < v2.len() implies !dir_prefix_of(
        (#[trigger] v2[i]).0,
        (#[trigger] v2[j]).0,
    ) by {
        let i0 = if i < k { i } else { i + 1 };
        let j0 = if j < k { j } else { j + 1 };
        assert(v2[i] == v[i0] && v2[j] == v[j0]);
    }
}

/// A state with the same paths entry for entry keeps the vault invariant.
proof fn lemma_wf_same_paths(v: Seq<(Seq<char>, Seq<char>)>, v2: Seq<(Seq<char>, Seq<char>)>)
    requires
        vault_wf(v),
        v2.len() == v.len(),
        forall|i: int| 0 <= i < v2.len() ==> (#[trigger] v2[i]).0 == v[i].0,
    ensures
        vault_wf(v2),
{
}

impl View for Vault {
    type V = Seq<(Seq<char>, Seq<char>)>;

    closed spec fn view(&self) -> Seq<(Seq<char>, Seq<char>)> {
        self.entries@.map_values(|e: Entry| (e.path@, e.contents@))
    }
}

impl Vault {
    /// The vault invariant, established by `new` and kept by every
    /// operation.
    pub open spec fn wf(&self) -> bool {
        vault_wf(self@)
    }

    /// An empty vault.
    pub fn new() -> (v: Vault)
        ensures
            v@ == Seq::<(Seq<char>, Seq<char>)>::empty(),
            v.wf(),
    {
        let v = Vault { entries: Vec::new() };
        proof {
            assert(v@ =~= Seq::<(Seq<char>, Seq<char>)>::empty());
        }
        v
    }

    /// Index of the entry at normalized path `p`, if any.
    fn find_entry(&self, p: &str) -> (r: Option<usize>)
        ensures
            match r {
                Some(i) => i < self@.len() && self@[i as int].0 == p@,
                None => !has_file(self@, p@),
            },
    {
        let mut i: usize = 0;
        while i < self.entries.len()
            invariant
                0 <= i <= self.entries.len(),
                self@.len() == self.entries.len(),
                forall|j: int| 0 <= j < i ==> (#[trigger] self@[j]).0 != p@,
            decreases self.entries.len() - i,
        {
            let e: &Entry = &self.entries[i];
            proof {
                assert(self@[i as int] == (e.path@, e.contents@));
            }
            if str_eq(e.path.as_str(), p) {
                return Some(i);
            }
            i = i + 1;
        }
        proof {
            assert(!has_file(self@, p@)) by {
                if has_file(self@, p@) {
                    let w = choose|j: int| 0 <= j < self@.len() && (#[trigger] self@[j]).0 == p@;
                    assert(self@[w].0 != p@);
                }
            }
        }
        None
    }

    /// Whether `p` is taken by an entry, a directory, or an entry on the
    /// way to it.
    fn is_occupied(&self, p: &str) -> (r: bool)
        ensures
            r == occupied(self@, p@),
    {
        let mut i: usize = 0;
        while i < self.entries.len()
            invariant
                0 <= i <= self.entries.len(),
                self@.len() == self.entries.len(),
                forall|j: int|
                    0 <= j < i ==> !((#[trigger] self@[j]).0 == p@ || dir_prefix_of(
                        p@,
                        self@[j].0,
                    ) || dir_prefix_of(self@[j].0, p@)),
            decreases self.entries.len() - i,
        {
            let e: &Entry = &self.entries[i];
            proof {
                assert(self@[i as int] == (e.path@, e.contents@));
            }
            if str_eq(e.path.as_str(), p) || check_dir_prefix(p, e.path.as_str())
                || check_dir_prefix(e.path.as_str(), p) {
                return true;
            }
            i = i + 1;
        }
        proof {
            assert(!occupied(self@, p@)) by {
                if occupied(self@, p@) {
                    let w = choose|j: int|
                        0 <= j < self@.len() && ((#[trigger] self@[j]).0 == p@ || dir_prefix_of(
                            p@,
                            self@[j].0,
                        ) || dir_prefix_of(self@[j].0, p@));
                    assert(!(self@[w].0 == p@ || dir_prefix_of(p@, self@[w].0) || dir_prefix_of(
                        self@[w].0,
                        p@,
                    )));
                }
            }
        }
        false
    }

    /// Loads one already-encoded record text at `path`, as when the vault
    /// state is rebuilt from decrypted storage. Fails with `InvalidPath`
    /// on an ill-formed path and `AlreadyExists` on a taken one.
    pub fn restore(&mut self, path: &str, contents: &str) -> (r: Result<(), Error>)
        requires
            old(self).wf(),
        ensures
            final(self).wf(),
            ({
                let p = norm(path@);
                &&& r is Ok <==> valid_path(p) && !occupied(old(self)@, p)
                &&& r is Ok ==> final(self)@ == old(self)@.push((p, contents@))
                &&& r is Err ==> final(self)@ == old(self)@
                &&& r matches Err(e) ==> e == (if !valid_path(p) {
                    Error::InvalidPath
                } else {
                    Error::AlreadyExists
                })
            }),
    {
        let p = normalize(path);
        if !check_path(p.as_str()) {
            return Err(Error::InvalidPath);
        }
        if self.is_occupied(p.as_str()) {
            return Err(Error::AlreadyExists);
        }
        proof {
            lemma_wf_push(self@, p@, contents@);
        }
        let ghost v_old = self@;
        self.entries.push(Entry { path: p, contents: contents.to_owned() });
        proof {
            assert(self@ =~= v_old.push((norm(path@), contents@)));
        }
        Ok(())
    }

    /// Creates a credential: builds the record from `secret` and
    /// `metadata`, encodes it, and stores it at `path`. Fails with
    /// `InvalidPath` on an ill-formed path, `AlreadyExists` on a taken
    /// one, and `InvalidSecret` when the secret holds a line break.
    pub fn insert(&mut self, path: &str, secret: &str, metadata: Option<&Vec<(String, String)>>)
        -> (r: Result<(), Error>)
        requires
            old(self).wf(),
        ensures
            final(self).wf(),
            ({
                let p = norm(path@);
                let rec = RecordView {
                    secret: secret@,
                    metadata: match metadata {
                        Some(m) => m.deep_view(),
                        None => Seq::<(Seq<char>, Seq<char>)>::empty(),
                    },
                };
                &&& r is Ok <==> valid_path(p) && !occupied(old(self)@, p) && !secret@.contains(
                    '\n',
                )
                &&& r is Ok ==> final(self)@ == old(self)@.push((p, encoded_record(rec)))
                &&& r is Err ==> final(self)@ == old(self)@
                &&& r matches Err(e) ==> e == (if !valid_path(p) {
                    Error::InvalidPath
                } else if occupied(old(self)@, p) {
                    Error::AlreadyExists
                } else {
                    Error::InvalidSecret
                })
            }),
    {
        let p = normalize(path);
        if !check_path(p.as_str()) {
            return Err(Error::InvalidPath);
        }
        if self.is_occupied(p.as_str()) {
            return Err(Error::AlreadyExists);
        }
        let rec = Record {
            secret: secret.to_owned(),
            metadata: match metadata {
                Some(m) => clone_pairs(m),
                None => Vec::new(),
            },
        };
        proof {
            if metadata is None {
                assert(rec@.metadata =~= Seq::<(Seq<char>, Seq<char>)>::empty());
            }
        }
        let text = match rec.encode() {
            Ok(text) => text,
            Err(e) => {
                return Err(e);
            },
        };
        proof {
            lemma_wf_push(self@, p@, text@);
        }
        let ghost v_old = self@;
        self.entries.push(Entry { path: p, contents: text });
        proof {
            assert(self@ =~= v_old.push((
                norm(path@),
                encoded_record(
                    RecordView {
                        secret: secret@,
                        metadata: match metadata {
                            Some(m) => m.deep_view(),
                            None => Seq::<(Seq<char>, Seq<char>)>::empty(),
                        },
                    },
                ),
            )));
        }
        Ok(())
    }

    /// Reads the credential at `path`: the whole record text when `full`,
    /// else only its secret line. Fails with `NotFound` when no entry
    /// carries the path and `MalformedRecord` when the stored text does
    /// not decode.
    pub fn get(&self, path: &str, full: bool) -> (r: Result<String, Error>)
        requires
            self.wf(),
        ensures
            ({
                let p = norm(path@);
                let c = contents_of(self@, p);
                &&& r is Ok <==> has_file(self@, p) && decodable(c)
                &&& r matches Ok(s) ==> (if full {
                    s@ == c
                } else {
                    s@ == decoded(c).secret
                })
                &&& !has_file(self@, p) ==> r == Err::<String, Error>(Error::NotFound)
                &&& has_file(self@, p) && !decodable(c) ==> (r matches Err(e) && e matches
                    Error::MalformedRecord(k) && 1 <= k < record_lines(c).len() && !record_lines(
                    c,
                )[k as int].contains('=') && (forall|j: int|
                    1 <= j < k ==> (#[trigger] record_lines(c)[j]).contains('=')))
            }),
    {
        let p = normalize(path);
        let i = match self.find_entry(p.as_str()) {
            Some(i) => i,
            None => {
                return Err(Error::NotFound);
            },
        };
        proof {
            lemma_file_idx(self@, p@, i as int);
        }
        let e: &Entry = &self.entries[i];
        proof {
            assert(self@[i as int] == (e.path@, e.contents@));
        }
        let rec = match Record::decode(e.contents.as_str()) {
            Ok(rec) => rec,
            Err(err) => {
                return Err(err);
            },
        };
        if full {
            Ok(e.contents.clone())
        } else {
            Ok(rec.secret)
        }
    }

    /// Deletes the credential at `path`. Fails with `NotFound` when no
    /// entry carries the path; namespaces need no further bookkeeping.
    pub fn remove(&mut self, path: &str) -> (r: Result<(), Error>)
        requires
            old(self).wf(),
        ensures
            final(self).wf(),
            ({
                let p = norm(path@);
                &&& r is Ok <==> has_file(old(self)@, p)
                &&& r is Ok ==> final(self)@ == old(self)@.remove(file_idx(old(self)@, p))
                &&& r is Err ==> final(self)@ == old(self)@ && r == Err::<(), Error>(
                    Error::NotFound,
                )
            }),
    {
        let p = normalize(path);
        let i = match self.find_entry(p.as_str()) {
            Some(i) => i,
            None => {
                return Err(Error::NotFound);
            },
        };
        proof {
            lemma_file_idx(self@, p@, i as int);
            lemma_wf_remove(self@, i as int);
        }
        let ghost v_old = self@;
        self.entries.remove(i);
        proof {
            assert(self@ =~= v_old.remove(i as int));
        }
        Ok(())
    }

    /// Rewrites the credential at `path`: replaces the secret when
    /// `new_secret` is given and applies `patch` to the metadata, then
    /// stores the re-encoded record in place. Fails with `NotFound` when
    /// the path is absent, `NoChange` when neither a secret nor a patch
    /// operation is given, `MalformedRecord` when the stored text does not
    /// decode, and `InvalidSecret` when the new secret holds a line break.
    pub fn edit(
        &mut self,
        path: &str,
        new_secret: Option<&String>,
        patch: Option<&Vec<PatchOp>>,
    ) -> (r: Result<(), Error>)
        requires
            old(self).wf(),
        ensures
            final(self).wf(),
            ({
                let p = norm(path@);
                let had = has_file(old(self)@, p);
                let c = contents_of(old(self)@, p);
                let ops = match patch {
                    Some(q) => q.deep_view(),
                    None => Seq::<crate::record::PatchOpView>::empty(),
                };
                let nochange = new_secret is None && ops.len() == 0;
                let rec1 = RecordView {
                    secret: match new_secret {
                        Some(s) => s@,
                        None => decoded(c).secret,
                    },
                    metadata: apply_patch(decoded(c).metadata, ops),
                };
                &&& !had ==> r == Err::<(), Error>(Error::NotFound)
                &&& had && nochange ==> r == Err::<(), Error>(Error::NoChange)
                &&& had && !nochange && !decodable(c) ==> (r matches Err(e) && e matches
                    Error::MalformedRecord(k) && 1 <= k < record_lines(c).len() && !record_lines(
                    c,
                )[k as int].contains('=') && (forall|j: int|
                    1 <= j < k ==> (#[trigger] record_lines(c)[j]).contains('=')))
                &&& had && !nochange && decodable(c) ==> {
                    &&& r is Ok <==> !rec1.secret.contains('\n')
                    &&& r is Ok ==> final(self)@ == old(self)@.update(
                        file_idx(old(self)@, p),
                        (p, encoded_record(rec1)),
                    )
                    &&& r is Err ==> r == Err::<(), Error>(Error::InvalidSecret)
                }
                &&& r is Err ==> final(self)@ == old(self)@
            }),
    {
        let p = normalize(path);
        let i = match self.find_entry(p.as_str()) {
            Some(i) => i,
            None => {
                return Err(Error::NotFound);
            },
        };
        proof {
            lemma_file_idx(self@, p@, i as int);
        }
        let no_secret = new_secret.is_none();
        let no_patch = match patch {
            Some(q) => q.len() == 0,
            None => true,
        };
        if no_secret && no_patch {
            return Err(Error::NoChange);
        }
        let e: &Entry = &self.entries[i];
        proof {
            assert(self@[i as int] == (e.path@, e.contents@));
        }
        let mut rec = match Record::decode(e.contents.as_str()) {
            Ok(rec) => rec,
            Err(err) => {
                return Err(err);
            },
        };
        if let Some(s) = new_secret {
            rec.secret = s.clone();
        }
        if let Some(q) = patch {
            rec.apply(q);
        } else {
            proof {
                assert(apply_patch(
                    decoded(contents_of(old(self)@, p@)).metadata,
                    Seq::<crate::record::PatchOpView>::empty(),
                ) == rec@.metadata);
            }
        }
        let text = match rec.encode() {
            Ok(text) => text,
            Err(err) => {
                return Err(err);
            },
        };
        let ghost v_old = self@;
        let ghost text_view = text@;
        self.entries[i].contents = text;
        proof {
            assert(self@ =~= v_old.update(i as int, (v_old[i as int].0, text_view)));
            lemma_wf_same_paths(v_old, self@);
            assert(self@ =~= v_old.update(
                i as int,
                (
                    norm(path@),
                    encoded_record(
                        RecordView {
                            secret: match new_secret {
                                Some(s) => s@,
                                None => decoded(contents_of(v_old, norm(path@))).secret,
                            },
                            metadata: apply_patch(
                                decoded(contents_of(v_old, norm(path@))).metadata,
                                match patch {
                                    Some(q) => q.deep_view(),
                                    None => Seq::<crate::record::PatchOpView>::empty(),
                                },
                            ),
                        },
                    ),
                ),
            ));
        }
        Ok(())
    }

    /// Whether some entry lives under the namespace `p`.
    fn has_dir_entry(&self, p: &str) -> (r: bool)
        ensures
            r == has_dir(self@, p@),
    {
        let mut i: usize = 0;
        while i < self.entries.len()
            invariant
                0 <= i <= self.entries.len(),
                self@.len() == self.entries.len(),
                forall|j: int| 0 <= j < i ==> !dir_prefix_of(p@, (#[trigger] self@[j]).0),
            decreases self.entries.len() - i,
        {
            let e: &Entry = &self.entries[i];
            proof {
                assert(self@[i as int] == (e.path@, e.contents@));
            }
            if check_dir_prefix(p, e.path.as_str()) {
                return true;
            }
            i = i + 1;
        }
        proof {
            assert(!has_dir(self@, p@)) by {
                if has_dir(self@, p@) {
                    let w = choose|j: int|
                        0 <= j < self@.len() && dir_prefix_of(p@, (#[trigger] self@[j]).0);
                    assert(!dir_prefix_of(p@, self@[w].0));
                }
            }
        }
        false
    }

    /// Renames the credential at `source`, or every credential under it
    /// when `source` names a namespace, to stand under `destination`; each
    /// record text moves untouched. Fails with `InvalidPath` on an
    /// ill-formed path, `NotFound` when `source` names nothing, and
    /// `AlreadyExists` when `destination` is taken.
    pub fn move_entry(&mut self, source: &str, destination: &str) -> (r: Result<(), Error>)
        requires
            old(self).wf(),
        ensures
            final(self).wf(),
            ({
                let src = norm(source@);
                let dst = norm(destination@);
                let present = has_file(old(self)@, src) || has_dir(old(self)@, src);
                &&& r is Ok <==> valid_path(src) && valid_path(dst) && present && !occupied(
                    old(self)@,
                    dst,
                )
                &&& r is Ok ==> final(self)@.len() == old(self)@.len() && (forall|j: int|
                    0 <= j < old(self)@.len() ==> #[trigger] final(self)@[j] == (
                    moved_path(old(self)@[j].0, src, dst),
                    old(self)@[j].1,
                ))
                &&& r is Err ==> final(self)@ == old(self)@
                &&& r matches Err(e) ==> e == (if !valid_path(src) || !valid_path(dst) {
                    Error::InvalidPath
                } else if !present {
                    Error::NotFound
                } else {
                    Error::AlreadyExists
                })
            }),
    {
        let src = normalize(source);
        let dst = normalize(destination);
        if !check_path(src.as_str()) || !check_path(dst.as_str()) {
            return Err(Error::InvalidPath);
        }
        let is_file = match self.find_entry(src.as_str()) {
            Some(_) => true,
            None => false,
        };
        if !is_file && !self.has_dir_entry(src.as_str()) {
            return Err(Error::NotFound);
        }
        if self.is_occupied(dst.as_str()) {
            return Err(Error::AlreadyExists);
        }
        let ghost v_old = self@;
        let src_len = src.unicode_len();
        let mut out: Vec<Entry> = Vec::new();
        let mut i: usize = 0;
        while i < self.entries.len()
            invariant
                0 <= i <= self.entries.len(),
                self@ == v_old,
                v_old.len() == self.entries.len(),
                src_len == src@.len(),
                out.len() == i,
                forall|j: int|
                    0 <= j < i ==> (#[trigger] out@[j].path@, out@[j].contents@) == (
                    moved_path(v_old[j].0, src@, dst@),
                    v_old[j].1,
                ),
            decreases self.entries.len() - i,
        {
            let e: &Entry = &self.entries[i];
            proof {
                assert(self@[i as int] == (e.path@, e.contents@));
            }
            if str_eq(e.path.as_str(), src.as_str()) {
                out.push(Entry { path: dst.clone(), contents: e.contents.clone() });
            } else if check_dir_prefix(src.as_str(), e.path.as_str()) {
                let n_e = e.path.unicode_len();
                let mut np = dst.clone();
                np.append(e.path.as_str().substring_char(src_len, n_e));
                proof {
                    assert(e.path@.subrange(src_len as int, n_e as int) =~= e.path@.skip(
                        src_len as int,
                    ));
                }
                out.push(Entry { path: np, contents: e.contents.clone() });
            } else {
                out.push(Entry { path: e.path.clone(), contents: e.contents.clone() });
            }
            i = i + 1;
        }
        self.entries = out;
        proof {
            assert(self@.len() == v_old.len());
            assert forall|j: int| 0 <= j < v_old.len() implies #[trigger] self@[j] == (
            moved_path(v_old[j].0, norm(source@), norm(destination@)), v_old[j].1) by {
                assert(self@[j] == (self.entries@[j].path@, self.entries@[j].contents@));
            }
            lemma_wf_move(v_old, self@, src@, dst@);
        }
        Ok(())
    }

    /// Lists the scope under `path` (the whole vault when `None`): one
    /// `File` item per credential in scope and one `Dir` item per
    /// namespace in scope, immediate ones only unless `recursive`, each
    /// exactly once, in unspecified order. The reserved metadata
    /// directory never appears. Fails with `NotFound` when `path` names
    /// no namespace.
    pub fn list(&self, path: Option<&String>, recursive: bool) -> (r: Result<
        Vec<CredentialItem>,
        Error,
    >)
        requires
            self.wf(),
        ensures
            ({
                let base = match path {
                    Some(b) => Some(norm(b@)),
                    None => None::<Seq<char>>,
                };
                &&& r is Ok <==> (match base {
                    Some(b) => has_dir(self@, b),
                    None => true,
                })
                &&& r matches Err(e) ==> e == Error::NotFound
                &&& r matches Ok(items) ==> {
                    &&& forall|k: int|
                        0 <= k < items.deep_view().len() ==> listed_item(
                            self@,
                            base,
                            recursive,
                            #[trigger] items.deep_view()[k],
                        )
                    &&& forall|p: Seq<char>|
                        listed_file(self@, base, recursive, p) ==> items.deep_view().contains(
                            ItemView::File(p),
                        )
                    &&& forall|d: Seq<char>|
                        listed_dir(self@, base, recursive, d) ==> items.deep_view().contains(
                            ItemView::Dir(d),
                        )
                    &&& forall|k1: int, k2: int|
                        0 <= k1 < items.deep_view().len() && 0 <= k2 < items.deep_view().len()
                            && k1 != k2 ==> items.deep_view()[k1] != items.deep_view()[k2]
                }
            }),
    {
        let ghost gbase: Option<Seq<char>> = match path {
            Some(b) => Some(norm(b@)),
            None => None,
        };
        let nb: Option<String> = match path {
            Some(b) => {
                let x = normalize(b);
                if !self.has_dir_entry(x.as_str()) {
                    return Err(Error::NotFound);
                }
                Some(x)
            },
            None => None,
        };
        let ghost v = self@;
        let mut files: Vec<CredentialItem> = Vec::new();
        let mut dirs: Vec<String> = Vec::new();
        let mut i: usize = 0;
        while i < self.entries.len()
            invariant
                self.wf(),
                v == self@,
                0 <= i <= self.entries.len(),
                v.len() == self.entries.len(),
                nb matches Some(s) ==> gbase == Some(s@),
                nb is None ==> gbase is None,
                forall|k: int|
                    0 <= k < files.deep_view().len() ==> listed_item(
                        v,
                        gbase,
                        recursive,
                        #[trigger] files.deep_view()[k],
                    ),
                forall|k: int|
                    0 <= k < files.deep_view().len() ==> exists|j: int|
                        0 <= j < i && #[trigger] files.deep_view()[k] == ItemView::File(v[j].0),
                forall|j: int|
                    0 <= j < i && listed_file(v, gbase, recursive, (#[trigger] v[j]).0)
                        ==> files.deep_view().contains(ItemView::File(v[j].0)),
                forall|k1: int, k2: int|
                    0 <= k1 < files.deep_view().len() && 0 <= k2 < files.deep_view().len() && k1
                        != k2 ==> files.deep_view()[k1] != files.deep_view()[k2],
                forall|k: int|
                    0 <= k < dirs.deep_view().len() ==> listed_dir(
                        v,
                        gbase,
                        recursive,
                        #[trigger] dirs.deep_view()[k],
                    ),
                forall|k1: int, k2: int|
                    0 <= k1 < dirs.deep_view().len() && 0 <= k2 < dirs.deep_view().len() && k1
                        != k2 ==> dirs.deep_view()[k1] != dirs.deep_view()[k2],
                forall|d: Seq<char>, j: int|
                    0 <= j < i && !reserved_path(v[j].0) && #[trigger] dir_prefix_of(d, v[j].0)
                        && (if recursive {
                        in_scope(gbase, d)
                    } else {
                        direct_in_scope(gbase, d)
                    }) ==> dirs.deep_view().contains(d),
            decreases self.entries.len() - i,
        {
            let e: &Entry = &self.entries[i];
            let ghost p = e.path@;
            proof {
                assert(self@[i as int] == (e.path@, e.contents@));
            }
            let is_reserved = str_eq(e.path.as_str(), ".git") || check_dir_prefix(
                ".git",
                e.path.as_str(),
            );
            let in_base = match &nb {
                Some(b) => check_dir_prefix(b.as_str(), e.path.as_str()),
                None => true,
            };
            if is_reserved {
                // nothing under the reserved directory is listed
            } else if !in_base {
                proof {
                    assert forall|d: Seq<char>, j: int|
                        0 <= j < i + 1 && !reserved_path(v[j].0) && #[trigger] dir_prefix_of(
                            d,
                            v[j].0,
                        ) && (if recursive {
                            in_scope(gbase, d)
                        } else {
                            direct_in_scope(gbase, d)
                        }) implies dirs.deep_view().contains(d) by {
                        if j == i {
                            let b = gbase->Some_0;
                            assert(dir_prefix_of(b, d));
                            lemma_dir_prefix_trans(b, d, p);
                        }
                    }
                }
            } else {
                let n_e = e.path.unicode_len();
                let start: usize = match &nb {
                    Some(b) => {
                        proof {
                            assert(dir_prefix_of(b@, p));
                        }
                        b.unicode_len() + 1
                    },
                    None => 0,
                };
                if recursive {
                    let ghost files_old = files.deep_view();
                    files.push(CredentialItem::File(e.path.clone()));
                    proof {
                        assert(files.deep_view() =~= files_old.push(ItemView::File(p)));
                        lemma_push_contains(files_old, ItemView::File(p));
                        assert(files.deep_view().contains(ItemView::File(p)));
                        assert(has_file(v, p));
                        assert(listed_file(v, gbase, recursive, p));
                        assert forall|k1: int, k2: int|
                            0 <= k1 < files.deep_view().len() && 0 <= k2
                                < files.deep_view().len() && k1 != k2 implies files.deep_view()[k1]
                            != files.deep_view()[k2] by {
                            if k2 == files_old.len() && files_old[k1] == ItemView::File(p) {
                                let j = choose|j: int|
                                    0 <= j < i && files_old[k1] == ItemView::File(v[j].0);
                                assert(v[j].0 == v[i as int].0);
                            }
                            if k1 == files_old.len() && files_old[k2] == ItemView::File(p) {
                                let j = choose|j: int|
                                    0 <= j < i && files_old[k2] == ItemView::File(v[j].0);
                                assert(v[j].0 == v[i as int].0);
                            }
                        }
                    }
                    let mut q = start;
                    while q < n_e
                        invariant
                            v.len() == self.entries.len(),
                            0 <= i < v.len(),
                            v[i as int].0 == p,
                            !reserved_path(p),
                            in_scope(gbase, p),
                            recursive,
                            start <= q <= n_e,
                            n_e == p.len(),
                            e.path@ == p,
                            nb matches Some(s) ==> gbase == Some(s@) && start == s@.len() + 1,
                            nb is None ==> gbase is None && start == 0,
                            forall|k: int|
                                0 <= k < dirs.deep_view().len() ==> listed_dir(
                                    v,
                                    gbase,
                                    recursive,
                                    #[trigger] dirs.deep_view()[k],
                                ),
                            forall|k1: int, k2: int|
                                0 <= k1 < dirs.deep_view().len() && 0 <= k2
                                    < dirs.deep_view().len() && k1 != k2 ==> dirs.deep_view()[k1]
                                    != dirs.deep_view()[k2],
                            forall|d: Seq<char>, j: int|
                                0 <= j < i && !reserved_path(v[j].0) && #[trigger] dir_prefix_of(
                                    d,
                                    v[j].0,
                                ) && (if recursive {
                                    in_scope(gbase, d)
                                } else {
                                    direct_in_scope(gbase, d)
                                }) ==> dirs.deep_view().contains(d),
                            forall|t: int|
                                start <= t < q && p[t] == '/' ==> dirs.deep_view().contains(
                                    #[trigger] p.take(t),
                                ),
                        decreases n_e - q,
                    {
                        if e.path.get_char(q) == '/' {
                            let d = substring(e.path.as_str(), 0, q);
                            proof {
                                assert(d@ =~= p.take(q as int));
                                assert(dir_prefix_of(d@, p));
                                if gbase is Some {
                                    let b = gbase->Some_0;
                                    assert(d@.take(b.len() as int) =~= b) by {
                                        assert forall|u: int|
                                            0 <= u < b.len() implies d@[u] == b[u] by {
                                            assert(p.take(b.len() as int)[u] == p[u]);
                                            assert(p.take(q as int)[u] == p[u]);
                                        }
                                    }
                                    assert(d@[b.len() as int] == p[b.len() as int]);
                                    assert(dir_prefix_of(b, d@));
                                }
                                assert(listed_dir(v, gbase, recursive, d@));
                            }
                            if !contains_string(&dirs, d.as_str()) {
                                let ghost dirs_old = dirs.deep_view();
                                let ghost dq = d@;
                                dirs.push(d);
                                proof {
                                    assert(dirs.deep_view() =~= dirs_old.push(dq));
                                    lemma_push_contains(dirs_old, dq);
                                    assert(dirs.deep_view().contains(p.take(q as int)));
                                }
                            } else {
                                proof {
                                    assert(dirs.deep_view().contains(p.take(q as int)));
                                }
                            }
                        }
                        q = q + 1;
                    }
                    proof {
                        assert forall|d: Seq<char>, j: int|
                            0 <= j < i + 1 && !reserved_path(v[j].0) && #[trigger] dir_prefix_of(
                                d,
                                v[j].0,
                            ) && (if recursive {
                                in_scope(gbase, d)
                            } else {
                                direct_in_scope(gbase, d)
                            }) implies dirs.deep_view().contains(d) by {
                            if j == i {
                                let t = d.len() as int;
                                assert(p.take(t) =~= d);
                                assert(p[t] == '/');
                                if gbase is Some {
                                    assert(dir_prefix_of(gbase->Some_0, d));
                                }
                                assert(start <= t < n_e);
                            }
                        }
                    }
                } else {
                    let sep = find_char(e.path.as_str(), start, '/');
                    if sep == n_e {
                        let ghost files_old = files.deep_view();
                        files.push(CredentialItem::File(e.path.clone()));
                        proof {
                            assert(files.deep_view() =~= files_old.push(ItemView::File(p)));
                            lemma_push_contains(files_old, ItemView::File(p));
                            assert(files.deep_view().contains(ItemView::File(p)));
                            assert(has_file(v, p));
                            assert(direct_in_scope(gbase, p)) by {
                                match gbase {
                                    None => {
                                        assert(!p.contains('/')) by {
                                            if p.contains('/') {
                                                let w = choose|u: int|
                                                    0 <= u < p.len() && p[u] == '/';
                                                assert(p[w] != '/');
                                            }
                                        }
                                    },
                                    Some(b) => {
                                        let s = p.skip(b.len() as int + 1);
                                        assert(!s.contains('/')) by {
                                            if s.contains('/') {
                                                let w = choose|u: int|
                                                    0 <= u < s.len() && s[u] == '/';
                                                assert(p[b.len() + 1 + w] == '/');
                                                assert(p[b.len() + 1 + w] != '/');
                                            }
                                        }
                                    },
                                }
                            }
                            assert(listed_file(v, gbase, recursive, p));
                            assert forall|k1: int, k2: int|
                                0 <= k1 < files.deep_view().len() && 0 <= k2
                                    < files.deep_view().len() && k1 != k2 implies files.deep_view()[
                                k1] != files.deep_view()[k2] by {
                                if k2 == files_old.len() && files_old[k1] == ItemView::File(p) {
                                    let j = choose|j: int|
                                        0 <= j < i && files_old[k1] == ItemView::File(v[j].0);
                                    assert(v[j].0 == v[i as int].0);
                                }
                                if k1 == files_old.len() && files_old[k2] == ItemView::File(p) {
                                    let j = choose|j: int|
                                        0 <= j < i && files_old[k2] == ItemView::File(v[j].0);
                                    assert(v[j].0 == v[i as int].0);
                                }
                            }
                            assert forall|d: Seq<char>, j: int|
                                0 <= j < i + 1 && !reserved_path(v[j].0) && #[trigger] dir_prefix_of(
                                    d,
                                    v[j].0,
                                ) && (if recursive {
                                    in_scope(gbase, d)
                                } else {
                                    direct_in_scope(gbase, d)
                                }) implies dirs.deep_view().contains(d) by {
                                if j == i {
                                    let t = d.len() as int;
                                    assert(p[t] == '/');
                                    if gbase is Some {
                                        assert(dir_prefix_of(gbase->Some_0, d));
                                        assert(start <= t);
                                    }
                                    assert(p[t] != '/');
                                }
                            }
                        }
                    } else {
                        let d = substring(e.path.as_str(), 0, sep);
                        let ghost dv = d@;
                        proof {
                            assert(dv =~= p.take(sep as int));
                            assert(dir_prefix_of(dv, p));
                            if gbase is Some {
                                let b = gbase->Some_0;
                                assert(dv.take(b.len() as int) =~= b) by {
                                    assert forall|u: int| 0 <= u < b.len() implies dv[u] == b[
                                    u] by {
                                        assert(p.take(b.len() as int)[u] == p[u]);
                                        assert(p.take(sep as int)[u] == p[u]);
                                    }
                                }
                                assert(dv[b.len() as int] == p[b.len() as int]);
                                assert(dir_prefix_of(b, dv));
                                let s = dv.skip(b.len() as int + 1);
                                assert(!s.contains('/')) by {
                                    if s.contains('/') {
                                        let w = choose|u: int| 0 <= u < s.len() && s[u] == '/';
                                        assert(dv[b.len() + 1 + w] == '/');
                                        assert(p.take(sep as int)[b.len() + 1 + w] == '/');
                                        assert(p[b.len() + 1 + w] != '/');
                                    }
                                }
                            } else {
                                assert(!dv.contains('/')) by {
                                    if dv.contains('/') {
                                        let w = choose|u: int| 0 <= u < dv.len() && dv[u] == '/';
                                        assert(p.take(sep as int)[w] == '/');
                                        assert(p[w] != '/');
                                    }
                                }
                            }
                            assert(direct_in_scope(gbase, dv));
                            assert(listed_dir(v, gbase, recursive, dv));
                        }
                        if !contains_string(&dirs, d.as_str()) {
                            let ghost dirs_old = dirs.deep_view();
                            dirs.push(d);
                            proof {
                                assert(dirs.deep_view() =~= dirs_old.push(dv));
                                lemma_push_contains(dirs_old, dv);
                                assert(dirs.deep_view().contains(dv));
                            }
                        }
                        proof {
                            assert(dirs.deep_view().contains(dv));
                            assert forall|j: int|
                                0 <= j < i + 1 && listed_file(
                                    v,
                                    gbase,
                                    recursive,
                                    (#[trigger] v[j]).0,
                                ) implies files.deep_view().contains(ItemView::File(v[j].0)) by {
                                if j == i {
                                    assert(direct_in_scope(gbase, p));
                                    match gbase {
                                        None => {
                                            assert(p[sep as int] == '/');
                                            assert(p.contains('/'));
                                        },
                                        Some(b) => {
                                            let s = p.skip(b.len() as int + 1);
                                            assert(s[sep - start] == '/');
                                            assert(s.contains('/'));
                                        },
                                    }
                                }
                            }
                            assert forall|d2: Seq<char>, j: int|
                                0 <= j < i + 1 && !reserved_path(v[j].0)
                                    && #[trigger] dir_prefix_of(d2, v[j].0) && (if recursive {
                                    in_scope(gbase, d2)
                                } else {
                                    direct_in_scope(gbase, d2)
                                }) implies dirs.deep_view().contains(d2) by {
                                if j == i {
                                    let t = d2.len() as int;
                                    assert(p.take(t) =~= d2);
                                    assert(p[t] == '/');
                                    assert(start <= t) by {
                                        if gbase is Some {
                                            assert(dir_prefix_of(gbase->Some_0, d2));
                                        }
                                    }
                                    assert forall|u: int| start <= u < t implies p[u] != '/' by {
                                        match gbase {
                                            None => {
                                                assert(d2[u] == p.take(t)[u]);
                                                assert(!d2.contains('/'));
                                                if p[u] == '/' {
                                                    assert(d2[u] == '/');
                                                    assert(d2.contains('/'));
                                                }
                                            },
                                            Some(b) => {
                                                let s = d2.skip(b.len() as int + 1);
                                                assert(!s.contains('/'));
                                                if p[u] == '/' {
                                                    assert(d2[u] == p.take(t)[u]);
                                                    assert(s[u - start] == d2[u]);
                                                    assert(s.contains('/'));
                                                }
                                            },
                                        }
                                    }
                                    assert(t <= sep) by {
                                        if t > sep {
                                            assert(p[sep as int] != '/');
                                        }
                                    }
                                    assert(t >= sep) by {
                                        if t < sep {
                                            assert(p[t] != '/');
                                        }
                                    }
                                    assert(d2 =~= dv);
                                }
                            }
                        }
                    }
                }
            }
            i = i + 1;
        }
        let ghost files_view = files.deep_view();
        let ghost dirs_view = dirs.deep_view();
        let ghost nf = files.deep_view().len() as int;
        let mut items = files;
        let mut t: usize = 0;
        while t < dirs.len()
            invariant
                0 <= t <= dirs.len(),
                dirs.deep_view() == dirs_view,
                dirs_view.len() == dirs.len(),
                items.deep_view().len() == nf + t,
                nf == files_view.len(),
                forall|k: int| 0 <= k < nf ==> #[trigger] items.deep_view()[k] == files_view[k],
                forall|k: int|
                    0 <= k < t ==> #[trigger] items.deep_view()[nf + k] == ItemView::Dir(
                        dirs_view[k],
                    ),
            decreases dirs.len() - t,
        {
            let d: &String = &dirs[t];
            proof {
                assert(dirs.deep_view()[t as int] == d@);
            }
            let ghost items_old = items.deep_view();
            items.push(CredentialItem::Dir(d.clone()));
            proof {
                assert(items.deep_view() =~= items_old.push(ItemView::Dir(d@)));
            }
            t = t + 1;
        }
        proof {
            let iv = items.deep_view();
            assert forall|k: int| 0 <= k < iv.len() implies listed_item(
                v,
                gbase,
                recursive,
                #[trigger] iv[k],
            ) by {
                if k < nf {
                    assert(iv[k] == files_view[k]);
                } else {
                    assert(iv[nf + (k - nf)] == ItemView::Dir(dirs_view[k - nf]));
                }
            }
            assert forall|p: Seq<char>| listed_file(v, gbase, recursive, p) implies iv.contains(
                ItemView::File(p),
            ) by {
                let j = choose|j: int| 0 <= j < v.len() && (#[trigger] v[j]).0 == p;
                assert(listed_file(v, gbase, recursive, v[j].0));
                assert(files_view.contains(ItemView::File(v[j].0)));
                let k = choose|k: int|
                    0 <= k < files_view.len() && files_view[k] == ItemView::File(v[j].0);
                assert(iv[k] == ItemView::File(p));
            }
            assert forall|d: Seq<char>| listed_dir(v, gbase, recursive, d) implies iv.contains(
                ItemView::Dir(d),
            ) by {
                let j = choose|j: int|
                    0 <= j < v.len() && !reserved_path((#[trigger] v[j]).0) && dir_prefix_of(
                        d,
                        v[j].0,
                    );
                assert(dir_prefix_of(d, v[j].0));
                assert(dirs_view.contains(d));
                let k = choose|k: int| 0 <= k < dirs_view.len() && dirs_view[k] == d;
                assert(iv[nf + k] == ItemView::Dir(dirs_view[k]));
                assert(iv[nf + k] == ItemView::Dir(d));
                assert(iv.contains(ItemView::Dir(d)));
            }
            assert forall|k1: int, k2: int|
                0 <= k1 < items.deep_view().len() && 0 <= k2 < items.deep_view().len() && k1
                    != k2 implies items.deep_view()[k1] != items.deep_view()[k2] by {
                let iv2 = items.deep_view();
                if k1 < nf && k2 < nf {
                    assert(iv2[k1] == files_view[k1] && iv2[k2] == files_view[k2]);
                } else if k1 < nf {
                    assert(iv2[k1] == files_view[k1]);
                    assert(iv2[nf + (k2 - nf)] == ItemView::Dir(dirs_view[k2 - nf]));
                    assert(files_view[k1] matches ItemView::File(_));
                } else if k2 < nf {
                    assert(iv2[k2] == files_view[k2]);
                    assert(iv2[nf + (k1 - nf)] == ItemView::Dir(dirs_view[k1 - nf]));
                    assert(files_view[k2] matches ItemView::File(_));
                } else {
                    assert(iv2[nf + (k1 - nf)] == ItemView::Dir(dirs_view[k1 - nf]));
                    assert(iv2[nf + (k2 - nf)] == ItemView::Dir(dirs_view[k2 - nf]));
                    assert(dirs_view[k1 - nf] != dirs_view[k2 - nf]);
                }
            }
        }
        Ok(items)
    }
}

/// Insert/get consistency: after a record whose texts stay on their
/// lines is inserted at a free valid path, the path holds exactly its
/// encoding, which decodes back to the record — so a full read returns
/// the record and a secret read returns its secret.
pub proof fn lemma_insert_get_consistency(
    v: Seq<(Seq<char>, Seq<char>)>,
    p: Seq<char>,
    rec: RecordView,
)
    requires
        vault_wf(v),
        valid_path(p),
        !occupied(v, p),
        rec.wf(),
    ensures
        ({
            let v2 = v.push((p, encoded_record(rec)));
            &&& has_file(v2, p)
            &&& contents_of(v2, p) == encoded_record(rec)
            &&& decodable(contents_of(v2, p))
            &&& decoded(contents_of(v2, p)) == rec
        }),
{
    let v2 = v.push((p, encoded_record(rec)));
    lemma_wf_push(v, p, encoded_record(rec));
    assert(v2[v.len() as int].0 == p);
    lemma_file_idx(v2, p, v.len() as int);
    crate::record::lemma_record_round_trip(rec);
}

/// Move preserves content and changes addressability: after a successful
/// move, the destination holds exactly the record text the source held,
/// and the source path holds nothing.
pub proof fn lemma_move_preserves_content(
    v: Seq<(Seq<char>, Seq<char>)>,
    v2: Seq<(Seq<char>, Seq<char>)>,
    src: Seq<char>,
    dst: Seq<char>,
)
    requires
        vault_wf(v),
        valid_path(src),
        valid_path(dst),
        has_file(v, src),
        !occupied(v, dst),
        v2.len() == v.len(),
        forall|j: int| 0 <= j < v.len() ==> #[trigger] v2[j] == (moved_path(v[j].0, src, dst), v[j].1),
    ensures
        has_file(v2, dst),
        contents_of(v2, dst) == contents_of(v, src),
        !has_file(v2, src),
{
    lemma_wf_move(v, v2, src, dst);
    let i = choose|i: int| 0 <= i < v.len() && (#[trigger] v[i]).0 == src;
    lemma_file_idx(v, src, i);
    assert(src != dst) by {
        if src == dst {
            assert(occupied(v, dst));
        }
    }
    assert(v2[i] == (dst, v[i].1));
    lemma_file_idx(v2, dst, i);
    assert(!has_file(v2, src)) by {
        if has_file(v2, src) {
            let k = choose|k: int| 0 <= k < v2.len() && (#[trigger] v2[k]).0 == src;
            assert(v2[k] == (moved_path(v[k].0, src, dst), v[k].1));
            if v[k].0 == src {
                assert(v2[k].0 == dst);
            } else if dir_prefix_of(src, v[k].0) {
                assert(dir_prefix_of(v[i].0, v[k].0));
            } else {
                assert(v2[k].0 == v[k].0);
                assert(v[k].0 == src);
            }
        }
    }
}

/// The reserved version-control metadata directory at the vault root,
/// never represented in a listing.
pub open spec fn reserved_path(p: Seq<char>) -> bool {
    p == ".git"@ || dir_prefix_of(".git"@, p)
}

/// Whether `p` lies in the listing scope: anywhere when `base` is `None`,
/// strictly under the base namespace otherwise.
pub open spec fn in_scope(base: Option<Seq<char>>, p: Seq<char>) -> bool {
    match base {
        None => true,
        Some(b) => dir_prefix_of(b, p),
    }
}

/// Whether `p` sits immediately inside the scope, with no namespace
/// between.
pub open spec fn direct_in_scope(base: Option<Seq<char>>, p: Seq<char>) -> bool {
    match base {
        None => !p.contains('/'),
        Some(b) => dir_prefix_of(b, p) && !p.skip(b.len() as int + 1).contains('/'),
    }
}

/// Whether a listing of the scope shows the credential at `p`.
pub open spec fn listed_file(
    v: Seq<(Seq<char>, Seq<char>)>,
    base: Option<Seq<char>>,
    recursive: bool,
    p: Seq<char>,
) -> bool {
    has_file(v, p) && !reserved_path(p) && if recursive {
        in_scope(base, p)
    } else {
        direct_in_scope(base, p)
    }
}

/// Whether a listing of the scope shows the namespace `d`: some
/// unreserved entry lives under it and it lies in the scope.
pub open spec fn listed_dir(
    v: Seq<(Seq<char>, Seq<char>)>,
    base: Option<Seq<char>>,
    recursive: bool,
    d: Seq<char>,
) -> bool {
    (exists|i: int|
        0 <= i < v.len() && !reserved_path((#[trigger] v[i]).0) && dir_prefix_of(d, v[i].0))
        && if recursive {
        in_scope(base, d)
    } else {
        direct_in_scope(base, d)
    }
}

/// Whether a listing of the scope shows the item.
pub open spec fn listed_item(
    v: Seq<(Seq<char>, Seq<char>)>,
    base: Option<Seq<char>>,
    recursive: bool,
    it: ItemView,
) -> bool {
    match it {
        ItemView::File(p) => listed_file(v, base, recursive, p),
        ItemView::Dir(d) => listed_dir(v, base, recursive, d),
    }
}

/// Pushing onto a sequence keeps everything it contained and adds the
/// new element.
proof fn lemma_push_contains<A>(s: Seq<A>, x: A)
    ensures
        forall|y: A| s.contains(y) ==> #[trigger] s.push(x).contains(y),
        s.push(x).contains(x),
{
    assert forall|y: A| s.contains(y) implies s.push(x).contains(y) by {
        let w = choose|w: int| 0 <= w < s.len() && s[w] == y;
        assert(s.push(x)[w] == y);
    }
    assert(s.push(x)[s.len() as int] == x);
}

/// Whether one of the strings equals `s`.
fn contains_string(v: &Vec<String>, s: &str) -> (r: bool)
    ensures
        r == v.deep_view().contains(s@),
{
    let mut i: usize = 0;
    while i < v.len()
        invariant
            0 <= i <= v.len(),
            v.deep_view().len() == v.len(),
            forall|j: int| 0 <= j < i ==> #[trigger] v.deep_view()[j] != s@,
        decreases v.len() - i,
    {
        let e: &String = &v[i];
        proof {
            assert(v.deep_view()[i as int] == e@);
        }
        if str_eq(e.as_str(), s) {
            assert(v.deep_view().contains(s@));
            return true;
        }
        i = i + 1;
    }
    proof {
        assert(!v.deep_view().contains(s@)) by {
            if v.deep_view().contains(s@) {
                let w = choose|j: int|
                    0 <= j < v.deep_view().len() && v.deep_view()[j] == s@;
                assert(v.deep_view()[w] != s@);
            }
        }
    }
    false
}

/// Where a path moves when `src` is renamed to `dst`: `src` itself
/// becomes `dst`, a path under `src` keeps its suffix under `dst`, and
/// any other path stands still.
pub open spec fn moved_path(p: Seq<char>, src: Seq<char>, dst: Seq<char>) -> Seq<char> {
    if p == src {
        dst
    } else if dir_prefix_of(src, p) {
        dst + p.skip(src.len() as int)
    } else {
        p
    }
}

/// A suffix opening with a separator hangs its whole under the prefix.
proof fn lemma_concat_under(dst: Seq<char>, s: Seq<char>)
    requires
        s.len() > 0,
        s[0] == '/',
    ensures
        dir_prefix_of(dst, dst + s),
{
    assert((dst + s).take(dst.len() as int) =~= dst);
    assert((dst + s)[dst.len() as int] == '/');
}

/// A path that collides with anything inside the `dst` subtree collides
/// with `dst` itself.
proof fn lemma_conflict_via_subtree(y: Seq<char>, x2: Seq<char>, dst: Seq<char>)
    requires
        x2 == dst || dir_prefix_of(dst, x2),
        y == x2 || dir_prefix_of(y, x2) || dir_prefix_of(x2, y),
    ensures
        y == dst || dir_prefix_of(y, dst) || dir_prefix_of(dst, y),
{
    if x2 == dst {
    } else {
        if y == x2 {
        } else if dir_prefix_of(x2, y) {
            assert(y.take(dst.len() as int) =~= dst) by {
                assert forall|j: int| 0 <= j < dst.len() implies y.take(dst.len() as int)[j]
                    == dst[j] by {
                    assert(y[j] == y.take(x2.len() as int)[j]);
                    assert(x2[j] == x2.take(dst.len() as int)[j]);
                }
            }
            assert(y[dst.len() as int] == x2[dst.len() as int]) by {
                assert(y[dst.len() as int] == y.take(x2.len() as int)[dst.len() as int]);
            }
        } else {
            assert(forall|j: int| 0 <= j < y.len() ==> y[j] == x2[j]) by {
                assert forall|j: int| 0 <= j < y.len() implies y[j] == x2[j] by {
                    assert(y[j] == x2.take(y.len() as int)[j]);
                }
            }
            assert(forall|j: int| 0 <= j < dst.len() ==> dst[j] == x2[j]) by {
                assert forall|j: int| 0 <= j < dst.len() implies dst[j] == x2[j] by {
                    assert(dst[j] == x2.take(dst.len() as int)[j]);
                }
            }
            if y.len() < dst.len() {
                assert(dst.take(y.len() as int) =~= y);
                assert(dst[y.len() as int] == x2[y.len() as int]);
                assert(dir_prefix_of(y, dst));
            } else if y.len() == dst.len() {
                assert(y =~= dst);
            } else {
                assert(y.take(dst.len() as int) =~= dst);
                assert(y[dst.len() as int] == x2[dst.len() as int]);
                assert(dir_prefix_of(dst, y));
            }
        }
    }
}

/// Renaming maps a non-conflicting pair of paths to a non-conflicting
/// pair: the moved images neither coincide nor nest.
proof fn lemma_move_pair(x: Seq<char>, y: Seq<char>, src: Seq<char>, dst: Seq<char>)
    requires
        x != y,
        !dir_prefix_of(x, y),
        !dir_prefix_of(y, x),
        x != dst,
        !dir_prefix_of(x, dst),
        !dir_prefix_of(dst, x),
        y != dst,
        !dir_prefix_of(y, dst),
        !dir_prefix_of(dst, y),
    ensures
        moved_path(x, src, dst) != moved_path(y, src, dst),
        !dir_prefix_of(moved_path(x, src, dst), moved_path(y, src, dst)),
{
    let fx = moved_path(x, src, dst);
    let fy = moved_path(y, src, dst);
    if x == src {
        // y == src contradicts x != y; y under src contradicts the pair
        // being conflict-free; so y stands still and conflicts with dst
        // are excluded by assumption.
    } else if dir_prefix_of(src, x) {
        let sx = x.skip(src.len() as int);
        assert(sx.len() > 0 && sx[0] == '/');
        lemma_concat_under(dst, sx);
        assert(x =~= src + sx);
        if y == src || dir_prefix_of(src, y) {
            if y == src {
                // then dir_prefix_of(y, x) would hold
                assert(x.take(y.len() as int) =~= src);
                assert(dir_prefix_of(y, x));
            } else {
                let sy = y.skip(src.len() as int);
                assert(sy.len() > 0 && sy[0] == '/');
                assert(y =~= src + sy);
                if fx == fy {
                    assert(sx.len() == sy.len());
                    assert(sx =~= sy) by {
                        assert forall|k: int| 0 <= k < sx.len() implies sx[k] == sy[k] by {
                            assert((dst + sx)[dst.len() + k] == sx[k]);
                            assert((dst + sy)[dst.len() + k] == sy[k]);
                        }
                    }
                    assert(x == y);
                }
                if dir_prefix_of(fx, fy) {
                    assert(sx.len() < sy.len());
                    assert(sy.take(sx.len() as int) =~= sx) by {
                        assert forall|k: int| 0 <= k < sx.len() implies sy[k] == sx[k] by {
                            assert((dst + sy)[dst.len() + k] == sy[k]);
                            assert((dst + sy).take((dst + sx).len() as int)[dst.len() + k] == (dst
                                + sx)[dst.len() + k]);
                        }
                    }
                    assert(sy[sx.len() as int] == '/') by {
                        assert((dst + sy)[(dst + sx).len() as int] == '/');
                    }
                    assert(y.take(x.len() as int) =~= x) by {
                        assert forall|k: int| 0 <= k < x.len() implies y[k] == x[k] by {
                            if k < src.len() {
                            } else {
                                assert(x[k] == sx[k - src.len()]);
                                assert(y[k] == sy[k - src.len()]);
                                assert(sy.take(sx.len() as int)[k - src.len()] == sx[k
                                    - src.len()]);
                            }
                        }
                    }
                    assert(y[x.len() as int] == sy[sx.len() as int]);
                    assert(dir_prefix_of(x, y));
                }
            }
        } else {
            // fy == y; a conflict of y with fx, which hangs under dst,
            // would be a conflict of y with dst.
            if fx == fy || dir_prefix_of(fx, fy) || dir_prefix_of(fy, fx) {
                lemma_conflict_via_subtree(y, fx, dst);
            }
        }
    } else {
        // fx == x
        if y == src {
        } else if dir_prefix_of(src, y) {
            let sy = y.skip(src.len() as int);
            assert(sy.len() > 0 && sy[0] == '/');
            lemma_concat_under(dst, sy);
            if fx == fy || dir_prefix_of(fx, fy) || dir_prefix_of(fy, fx) {
                lemma_conflict_via_subtree(x, fy, dst);
            }
        } else {
        }
    }
}

/// Renaming `src` to an unoccupied valid `dst` keeps the vault
/// invariant.
proof fn lemma_wf_move(
    v: Seq<(Seq<char>, Seq<char>)>,
    v2: Seq<(Seq<char>, Seq<char>)>,
    src: Seq<char>,
    dst: Seq<char>,
)
    requires
        vault_wf(v),
        valid_path(src),
        valid_path(dst),
        !occupied(v, dst),
        v2.len() == v.len(),
        forall|j: int| 0 <= j < v.len() ==> #[trigger] v2[j] == (moved_path(v[j].0, src, dst), v[j].1),
    ensures
        vault_wf(v2),
{
    assert forall|i: int| 0 <= i < v.len() implies !(v[i].0 == dst || dir_prefix_of(
        dst,
        v[i].0,
    ) || dir_prefix_of(v[i].0, dst)) by {
        if v[i].0 == dst || dir_prefix_of(dst, v[i].0) || dir_prefix_of(v[i].0, dst) {
            assert(occupied(v, dst));
        }
    }
    assert forall|i: int| 0 <= i < v2.len() implies valid_path((#[trigger] v2[i]).0) by {
        let p = v[i].0;
        assert(valid_path(p));
        if p == src {
        } else if dir_prefix_of(src, p) {
            lemma_valid_split(p, src.len() as int);
            assert(p.skip(src.len() as int) =~= seq!['/'] + p.skip(src.len() as int + 1));
            lemma_valid_join(dst, p.skip(src.len() as int + 1));
            assert(dst + p.skip(src.len() as int) =~= dst + seq!['/'] + p.skip(
                src.len() as int + 1,
            ));
        } else {
        }
    }
    assert forall|i: int, j: int|
        0 <= i < v2.len() && 0 <= j < v2.len() && i != j implies (#[trigger] v2[i]).0 != (
    #[trigger] v2[j]).0 by {
        lemma_move_pair(v[i].0, v[j].0, src, dst);
    }
    assert forall|i: int, j: int| 0 <= i < v2.len() && 0 <= j < v2.len() implies !dir_prefix_of(
        (#[trigger] v2[i]).0,
        (#[trigger] v2[j]).0,
    ) by {
        if i != j {
            lemma_move_pair(v[i].0, v[j].0, src, dst);
        }
    }
}

/// Whether the path `a` names a namespace properly containing `b`.
pub fn check_dir_prefix(a: &str, b: &str) -> (r: bool)
    ensures
        r == dir_prefix_of(a@, b@),
{
    let na = a.unicode_len();
    let nb = b.unicode_len();
    if na >= nb {
        return false;
    }
    if b.get_char(na) != '/' {
        return false;
    }
    let r = crate::text::str_starts_with(b, a);
    proof {
        if r {
            assert(b@.take(na as int) =~= b@.subrange(0, a@.len() as int));
        }
    }
    r
}

} // verus!
