//! The synchronization credential bootstrap: the transport credential is
//! an ordinary vault record at a reserved path, written once when the
//! remote is configured and read back before every synchronization.
//!
//! The network itself is an external collaborator: the caller registers
//! the remote and runs fetch then push with what these functions hand it.
use vstd::prelude::*;

use crate::paths::{norm, seg_ok, valid_path};
use crate::record::{decodable, decoded, encoded_record, lookup, malformed_err, Record, RecordView};
use crate::store::{contents_of, has_file, occupied, Vault};
use crate::text::{
    lemma_split_on_append, lemma_split_on_no_sep, split_on,
};
use crate::Error;

verus! {

/// The reserved vault path holding the transport credential.
pub open spec fn sync_credential_path() -> Seq<char> {
    "config/rspass"@
}

/// The reserved path is a valid two-segment path and already normalized.
pub proof fn lemma_sync_path_valid()
    ensures
        valid_path(sync_credential_path()),
        norm(sync_credential_path()) == sync_credential_path(),
{
    reveal_strlit("config/rspass");
    reveal_strlit("config");
    reveal_strlit("rspass");
    let p = sync_credential_path();
    let a = "config"@;
    let b = "rspass"@;
    assert(p =~= a + seq!['/'] + b);
    assert(!a.contains('/')) by {
        if a.contains('/') {
            let w = choose|j: int| 0 <= j < a.len() && a[j] == '/';
            if w == 0 {
            } else if w == 1 {
            } else if w == 2 {
            } else if w == 3 {
            } else if w == 4 {
            } else {
                assert(w == 5);
            }
        }
    }
    assert(!b.contains('/')) by {
        if b.contains('/') {
            let w = choose|j: int| 0 <= j < b.len() && b[j] == '/';
            if w == 0 {
            } else if w == 1 {
            } else if w == 2 {
            } else if w == 3 {
            } else if w == 4 {
            } else {
                assert(w == 5);
            }
        }
    }
    lemma_split_on_append(a, b, '/');
    lemma_split_on_no_sep(a, '/');
    lemma_split_on_no_sep(b, '/');
    assert(split_on(p, '/') =~~= seq![a, b]);
    assert(seg_ok(a));
    assert(seg_ok(b));
    assert forall|i: int| 0 <= i < split_on(p, '/').len() implies seg_ok(
        #[trigger] split_on(p, '/')[i],
    ) by {
        if i == 0 {
            assert(split_on(p, '/')[0] == a);
        } else {
            assert(split_on(p, '/')[1] == b);
        }
    }
}

/// Configures the remote: stores the transport credential at the
/// reserved path, with the token as the record's secret and `uri` and
/// `username` as its metadata, in that order. Fails with `AlreadyExists`
/// when a credential is already configured and `InvalidSecret` when the
/// token holds a line break. On success the caller registers `uri` with
/// the transport.
pub fn set_remote(vault: &mut Vault, username: &str, token: &str, uri: &str) -> (r: Result<
    (),
    Error,
>)
    requires
        old(vault).wf(),
    ensures
        final(vault).wf(),
        ({
            let p = sync_credential_path();
            let rec = RecordView {
                secret: token@,
                metadata: seq![("uri"@, uri@), ("username"@, username@)],
            };
            &&& r is Ok <==> !occupied(old(vault)@, p) && !token@.contains('\n')
            &&& r is Ok ==> final(vault)@ == old(vault)@.push((p, encoded_record(rec)))
            &&& r is Err ==> final(vault)@ == old(vault)@
            &&& r matches Err(e) ==> e == (if occupied(old(vault)@, p) {
                Error::AlreadyExists
            } else {
                Error::InvalidSecret
            })
        }),
{
    let mut metadata: Vec<(String, String)> = Vec::new();
    metadata.push((String::from_str("uri"), uri.to_owned()));
    metadata.push((String::from_str("username"), username.to_owned()));
    proof {
        assert(metadata.deep_view() =~= seq![("uri"@, uri@), ("username"@, username@)]);
        lemma_sync_path_valid();
    }
    vault.insert("config/rspass", token, Some(&metadata))
}

/// Reads the transport credential back: the username from the record's
/// metadata and the token from its secret. Fails with `NotConfigured`
/// when the reserved path is absent or the record carries no `username`
/// entry, and `MalformedRecord` when the stored text does not decode.
pub fn get_git_credential(vault: &Vault) -> (r: Result<(String, String), Error>)
    requires
        vault.wf(),
    ensures
        ({
            let p = sync_credential_path();
            let c = contents_of(vault@, p);
            &&& !has_file(vault@, p) ==> r == Err::<(String, String), Error>(Error::NotConfigured)
            &&& has_file(vault@, p) && !decodable(c) ==> malformed_err(r, c)
            &&& has_file(vault@, p) && decodable(c) ==> (match lookup(
                decoded(c).metadata,
                "username"@,
            ) {
                Some(u) => r matches Ok(cred) && cred.0@ == u && cred.1@ == decoded(c).secret,
                None => r == Err::<(String, String), Error>(Error::NotConfigured),
            })
        }),
{
    proof {
        lemma_sync_path_valid();
    }
    let text = match vault.get("config/rspass", true) {
        Ok(text) => text,
        Err(Error::NotFound) => {
            return Err(Error::NotConfigured);
        },
        Err(e) => {
            return Err(e);
        },
    };
    let rec = match Record::decode(text.as_str()) {
        Ok(rec) => rec,
        Err(e) => {
            return Err(e);
        },
    };
    match rec.lookup_value("username") {
        Some(username) => Ok((username, rec.secret)),
        None => Err(Error::NotConfigured),
    }
}

} // verus!
