//! Core of a path-addressed credential vault: path model and validation,
//! the plaintext record codec with its patch semantics, the vault store
//! with CRUD and listing, and the synchronization credential bootstrap.
//!
//! Encryption at rest and the version-control transport are external
//! collaborators: callers hand this library decrypted record text and take
//! record text back; nothing here touches a key, a terminal or the network.
use vstd::prelude::*;

pub mod paths;
pub mod record;
pub mod store;
pub mod sync;
pub mod text;
pub mod validators;

use crate::text::{find_char, first_index_of, lemma_first_index_of_unique, substring};

verus! {

/// The error taxonomy of the vault engine.
///
/// `MalformedRecord` carries the index of the first record line that is not
/// a `key=value` pair. The three wrapper variants (`EncryptionFailure`,
/// `TransportFailure`, `IoFailure`) stand for failures of the external
/// engine, transport and filesystem; the engine itself never returns them.
#[derive(Clone, Copy, Debug, PartialEq, Eq, Structural)]
pub enum Error {
    InvalidPath,
    AlreadyExists,
    NotFound,
    NoChange,
    MalformedRecord(usize),
    InvalidSecret,
    NotConfigured,
    EncryptionFailure,
    TransportFailure,
    IoFailure,
}

/// Splits a metadata argument at its first `=` into a key and a value;
/// the value may itself contain `=`. An argument without `=` is rejected
/// with a usage message.
pub fn parse_key_value(value: &str) -> (r: Result<(String, String), String>)
    ensures
        r is Ok <==> value@.contains('='),
        r matches Ok(kv) ==> kv.0@ == value@.take(first_index_of(value@, '=')) && kv.1@
            == value@.skip(first_index_of(value@, '=') + 1),
        r matches Err(m) ==> m@ == "Invalid metadata format. expected \"key=value\""@,
{
    let n = value.unicode_len();
    let e = find_char(value, 0, '=');
    if e < n {
        let key = substring(value, 0, e);
        let val = substring(value, e + 1, n);
        proof {
            lemma_first_index_of_unique(value@, '=', e as int);
            assert(value@.contains('='));
            assert(key@ =~= value@.take(e as int));
            assert(val@ =~= value@.skip(e as int + 1));
        }
        Ok((key, val))
    } else {
        proof {
            assert(!value@.contains('=')) by {
                if value@.contains('=') {
                    let w = choose|j: int| 0 <= j < value@.len() && value@[j] == '=';
                    assert(value@[w] != '=');
                }
            }
        }
        Err(String::from_str("Invalid metadata format. expected \"key=value\""))
    }
}

} // verus!
