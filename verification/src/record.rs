//! The credential record codec: a record is a secret line followed by
//! `key=value` metadata lines in insertion order. Encoding and decoding
//! are exact inverses for records whose texts stay on their lines, and a
//! record is mutated through ordered patches of `Put` and `Delete`
//! operations.
use vstd::prelude::*;

use crate::text::{
    contains_char, find_char, first_index_of, lemma_first_index_of, lemma_first_index_of_unique,
    lemma_split_on_first, lemma_split_on_len, lemma_split_on_no_sep, lemma_split_on_append,
    split_on, str_eq, substring,
};
use crate::Error;

verus! {

/// Mathematical content of a credential record: the secret and the ordered
/// key/value metadata.
#[verifier::ext_equal]
pub ghost struct RecordView {
    pub secret: Seq<char>,
    pub metadata: Seq<(Seq<char>, Seq<char>)>,
}

/// A decrypted credential record.
#[derive(Debug, PartialEq, Eq)]
pub struct Record {
    pub secret: String,
    pub metadata: Vec<(String, String)>,
}

impl View for Record {
    type V = RecordView;

    open spec fn view(&self) -> RecordView {
        RecordView { secret: self.secret@, metadata: self.metadata.deep_view() }
    }
}

/// One metadata operation of a patch, applied left to right.
pub enum PatchOp {
    Put(String, String),
    Delete(String),
}

/// Mathematical content of a patch operation.
pub ghost enum PatchOpView {
    Put(Seq<char>, Seq<char>),
    Delete(Seq<char>),
}

impl View for PatchOp {
    type V = PatchOpView;

    open spec fn view(&self) -> PatchOpView {
        match self {
            PatchOp::Put(k, v) => PatchOpView::Put(k@, v@),
            PatchOp::Delete(k) => PatchOpView::Delete(k@),
        }
    }
}

impl DeepView for PatchOp {
    type V = PatchOpView;

    open spec fn deep_view(&self) -> PatchOpView {
        self@
    }
}

/// The text of one metadata line, without its leading line break.
pub open spec fn meta_line(kv: (Seq<char>, Seq<char>)) -> Seq<char> {
    kv.0 + seq!['='] + kv.1
}

/// The wire text of a record: the secret, then one `key=value` line per
/// metadata entry, in order.
pub open spec fn encoded_record(r: RecordView) -> Seq<char>
    decreases r.metadata.len(),
{
    if r.metadata.len() == 0 {
        r.secret
    } else {
        encoded_record(RecordView { secret: r.secret, metadata: r.metadata.drop_last() })
            + seq!['\n'] + meta_line(r.metadata.last())
    }
}

/// The lines of a record text.
pub open spec fn record_lines(s: Seq<char>) -> Seq<Seq<char>> {
    split_on(s, '\n')
}

/// A metadata line split at its first `=`.
pub open spec fn parsed_line(line: Seq<char>) -> (Seq<char>, Seq<char>) {
    (line.take(first_index_of(line, '=')), line.skip(first_index_of(line, '=') + 1))
}

/// A text decodes iff every line after the first carries an `=`.
pub open spec fn decodable(s: Seq<char>) -> bool {
    forall|i: int|
        1 <= i < record_lines(s).len() ==> (#[trigger] record_lines(s)[i]).contains('=')
}

/// The record a decodable text denotes.
pub open spec fn decoded(s: Seq<char>) -> RecordView
    recommends
        decodable(s),
{
    RecordView {
        secret: record_lines(s)[0],
        metadata: Seq::new(
            (record_lines(s).len() - 1) as nat,
            |i: int| parsed_line(record_lines(s)[i + 1]),
        ),
    }
}

/// Metadata that survives a round trip: no line break anywhere and no `=`
/// inside a key (values may contain `=`).
pub open spec fn wf_metadata(md: Seq<(Seq<char>, Seq<char>)>) -> bool {
    forall|i: int|
        0 <= i < md.len() ==> {
            &&& !(#[trigger] md[i]).0.contains('\n')
            &&& !md[i].0.contains('=')
            &&& !md[i].1.contains('\n')
        }
}

impl RecordView {
    /// A record whose encoding decodes back to itself.
    pub open spec fn wf(self) -> bool {
        !self.secret.contains('\n') && wf_metadata(self.metadata)
    }
}

/// The lines of an encoded well-formed record are the secret followed by
/// its metadata lines.
pub proof fn lemma_lines_of_encoded(r: RecordView)
    requires
        r.wf(),
    ensures
        record_lines(encoded_record(r)) == seq![r.secret] + r.metadata.map_values(
            |kv: (Seq<char>, Seq<char>)| meta_line(kv),
        ),
    decreases r.metadata.len(),
{
    let f = |kv: (Seq<char>, Seq<char>)| meta_line(kv);
    if r.metadata.len() == 0 {
        lemma_split_on_no_sep(r.secret, '\n');
        assert(record_lines(encoded_record(r)) =~~= seq![r.secret] + r.metadata.map_values(f));
    } else {
        let r0 = RecordView { secret: r.secret, metadata: r.metadata.drop_last() };
        assert(r0.wf());
        lemma_lines_of_encoded(r0);
        let kv = r.metadata.last();
        let line = meta_line(kv);
        assert(!line.contains('\n')) by {
            if line.contains('\n') {
                let w = choose|j: int| 0 <= j < line.len() && line[j] == '\n';
                if w < kv.0.len() {
                    assert(kv.0[w] == '\n');
                } else if w > kv.0.len() {
                    assert(kv.1[w - kv.0.len() - 1] == '\n');
                }
            }
        }
        lemma_split_on_append(encoded_record(r0), line, '\n');
        lemma_split_on_no_sep(line, '\n');
        assert(r.metadata.drop_last().map_values(f).push(f(kv)) =~= r.metadata.map_values(f));
        assert(record_lines(encoded_record(r)) =~~= seq![r.secret] + r.metadata.map_values(f));
    }
}

/// Decoding is the exact inverse of encoding on well-formed records.
pub proof fn lemma_record_round_trip(r: RecordView)
    requires
        r.wf(),
    ensures
        decodable(encoded_record(r)),
        decoded(encoded_record(r)) == r,
{
    lemma_lines_of_encoded(r);
    let ls = record_lines(encoded_record(r));
    assert forall|i: int| 1 <= i < ls.len() implies (#[trigger] ls[i]).contains('=') by {
        let kv = r.metadata[i - 1];
        assert(ls[i] == meta_line(kv));
        assert(meta_line(kv)[kv.0.len() as int] == '=');
    }
    assert forall|i: int| 0 <= i < r.metadata.len() implies parsed_line(#[trigger] ls[i + 1])
        == r.metadata[i] by {
        let kv = r.metadata[i];
        let line = meta_line(kv);
        assert(ls[i + 1] == line);
        assert forall|j: int| 0 <= j < kv.0.len() implies line[j] != '=' by {
            assert(line[j] == kv.0[j]);
        }
        lemma_first_index_of_unique(line, '=', kv.0.len() as int);
        assert(line.take(kv.0.len() as int) =~= kv.0);
        assert(line.skip(kv.0.len() as int + 1) =~= kv.1);
    }
    assert(decoded(encoded_record(r)).metadata =~= r.metadata);
    assert(decoded(encoded_record(r)) =~~= r);
}

impl Record {
    /// Encodes the record as its wire text. Fails with `InvalidSecret`
    /// exactly when the secret contains a line break; metadata is written
    /// verbatim.
    pub fn encode(&self) -> (r: Result<String, Error>)
        ensures
            r is Ok <==> !self@.secret.contains('\n'),
            r matches Ok(s) ==> s@ == encoded_record(self@),
            r matches Err(e) ==> e == Error::InvalidSecret,
    {
        if contains_char(self.secret.as_str(), '\n') {
            return Err(Error::InvalidSecret);
        }
        let mut out: String = self.secret.clone();
        proof {
            assert(self@.metadata.take(0) =~= Seq::<(Seq<char>, Seq<char>)>::empty());
        }
        let mut i: usize = 0;
        while i < self.metadata.len()
            invariant
                0 <= i <= self.metadata.len(),
                self@.metadata.len() == self.metadata.len(),
                out@ == encoded_record(
                    RecordView { secret: self@.secret, metadata: self@.metadata.take(i as int) },
                ),
            decreases self.metadata.len() - i,
        {
            let kv: &(String, String) = &self.metadata[i];
            out.append("\n");
            out.append(kv.0.as_str());
            out.append("=");
            out.append(kv.1.as_str());
            proof {
                reveal_strlit("\n");
                reveal_strlit("=");
                assert("\n"@ =~= seq!['\n']);
                assert("="@ =~= seq!['=']);
                let md = self@.metadata;
                assert(md.take(i + 1).drop_last() =~= md.take(i as int));
                assert(md.take(i + 1).last() == md[i as int]);
                assert(md[i as int] == (kv.0@, kv.1@));
                assert(out@ =~= encoded_record(
                    RecordView { secret: self@.secret, metadata: md.take(i + 1) },
                ));
            }
            i = i + 1;
        }
        proof {
            assert(self@.metadata.take(self.metadata.len() as int) =~= self@.metadata);
        }
        Ok(out)
    }

    /// Decodes a wire text: the first line becomes the secret, each later
    /// line is split at its first `=`. Fails with `MalformedRecord` naming
    /// the first line without an `=`.
    pub fn decode(text: &str) -> (r: Result<Record, Error>)
        ensures
            r is Ok <==> decodable(text@),
            r matches Ok(rec) ==> rec@ == decoded(text@),
            r matches Err(e) ==> e matches Error::MalformedRecord(k) && 1 <= k
                < record_lines(text@).len() && !record_lines(text@)[k as int].contains('=') && (
            forall|j: int| 1 <= j < k ==> (#[trigger] record_lines(text@)[j]).contains('=')),
    {
        let ghost ls = record_lines(text@);
        let n = text.unicode_len();
        let e0 = find_char(text, 0, '\n');
        let secret = substring(text, 0, e0);
        proof {
            if e0 < n {
                lemma_split_on_first(text@, '\n', e0 as int);
                assert(ls[0] == text@.take(e0 as int));
                assert(ls.skip(1) =~= split_on(text@.skip(e0 + 1), '\n'));
            } else {
                assert(!text@.contains('\n')) by {
                    if text@.contains('\n') {
                        let w = choose|j: int| 0 <= j < text@.len() && text@[j] == '\n';
                        assert(text@[w] != '\n');
                    }
                }
                lemma_split_on_no_sep(text@, '\n');
            }
        }
        let mut metadata: Vec<(String, String)> = Vec::new();
        let mut pos = e0;
        while pos < n
            invariant
                n == text@.len(),
                ls == record_lines(text@),
                pos <= n,
                pos < n ==> text@[pos as int] == '\n',
                metadata.len() <= pos,
                metadata.deep_view().len() + 1 <= ls.len(),
                secret@ == ls[0],
                metadata.deep_view().len() == metadata.len(),
                forall|j: int|
                    1 <= j < metadata.deep_view().len() + 1 ==> (#[trigger] ls[j]).contains('='),
                forall|j: int|
                    0 <= j < metadata.deep_view().len() ==> #[trigger] metadata.deep_view()[j]
                        == parsed_line(ls[j + 1]),
                pos < n ==> ls.skip(metadata.deep_view().len() as int + 1) =~= split_on(
                    text@.skip(pos + 1),
                    '\n',
                ),
                pos == n ==> metadata.deep_view().len() + 1 == ls.len(),
            decreases n - pos,
        {
            let start = pos + 1;
            let e = find_char(text, start, '\n');
            let ghost lineno: int = metadata.deep_view().len() as int + 1;
            let ghost line = text@.subrange(start as int, e as int);
            proof {
                let tail = text@.skip(pos + 1);
                let sk = ls.skip(lineno);
                assert(sk == split_on(tail, '\n'));
                if e < n {
                    lemma_split_on_first(tail, '\n', e - start);
                    assert(tail.take(e - start) =~= line);
                    assert(tail.skip(e - start + 1) =~= text@.skip(e + 1));
                    let rest = split_on(text@.skip(e + 1), '\n');
                    assert(sk =~= seq![line] + rest);
                    lemma_split_on_len(text@.skip(e + 1), '\n');
                    assert(sk.len() >= 1);
                    assert(lineno < ls.len());
                    assert(ls[lineno] == sk[0]);
                    assert(ls[lineno] == line);
                    assert(ls.skip(lineno + 1) =~= sk.skip(1));
                    assert(ls.skip(lineno + 1) =~= rest);
                } else {
                    assert(!tail.contains('\n')) by {
                        if tail.contains('\n') {
                            let w = choose|j: int| 0 <= j < tail.len() && tail[j] == '\n';
                            assert(text@[pos + 1 + w] == '\n');
                        }
                    }
                    lemma_split_on_no_sep(tail, '\n');
                    assert(tail =~= line);
                    assert(sk =~= seq![line]);
                    assert(lineno < ls.len());
                    assert(ls[lineno] == sk[0]);
                    assert(ls[lineno] == line);
                    assert(ls.len() == lineno + 1);
                }
            }
            let eq = find_char(text, start, '=');
            if eq >= e {
                proof {
                    assert(!line.contains('=')) by {
                        if line.contains('=') {
                            let w = choose|j: int| 0 <= j < line.len() && line[j] == '=';
                            assert(text@[start + w] == '=');
                        }
                    }
                    lemma_split_on_len(text@.skip(pos + 1), '\n');
                }
                return Err(Error::MalformedRecord(metadata.len() + 1));
            }
            let key = substring(text, start, eq);
            let value = substring(text, eq + 1, e);
            proof {
                assert forall|j: int| 0 <= j < eq - start implies line[j] != '=' by {
                    assert(line[j] == text@[start + j]);
                }
                assert(line[eq - start] == '=');
                lemma_first_index_of_unique(line, '=', eq - start);
                assert(line.take(eq - start) =~= key@);
                assert(line.skip(eq - start + 1) =~= value@);
                assert(line.contains('='));
            }
            let ghost md_old = metadata.deep_view();
            metadata.push((key, value));
            proof {
                assert(metadata.deep_view() =~= md_old.push(parsed_line(ls[lineno])));
            }
            pos = e;
        }
        let rec = Record { secret, metadata };
        proof {
            assert(decodable(text@));
            assert(rec@.metadata =~= decoded(text@).metadata);
            assert(rec@ =~~= decoded(text@));
        }
        Ok(rec)
    }
}

/// A result that failed on the first line of `c` carrying no `=`, with
/// the error naming that line.
pub open spec fn malformed_err<T>(r: Result<T, Error>, c: Seq<char>) -> bool {
    r matches Err(e) && e matches Error::MalformedRecord(k) && 1 <= k < record_lines(c).len()
        && !record_lines(c)[k as int].contains('=') && (forall|j: int|
        1 <= j < k ==> (#[trigger] record_lines(c)[j]).contains('='))
}

/// A fresh copy of a metadata vector with the same keys and values.
pub fn clone_pairs(md: &Vec<(String, String)>) -> (r: Vec<(String, String)>)
    ensures
        r.deep_view() == md.deep_view(),
{
    let mut out: Vec<(String, String)> = Vec::new();
    let mut i: usize = 0;
    while i < md.len()
        invariant
            0 <= i <= md.len(),
            md.deep_view().len() == md.len(),
            out.deep_view() =~= md.deep_view().take(i as int),
        decreases md.len() - i,
    {
        let kv: &(String, String) = &md[i];
        proof {
            assert(md.deep_view()[i as int] == (kv.0@, kv.1@));
        }
        let ghost out_old = out.deep_view();
        out.push((kv.0.clone(), kv.1.clone()));
        proof {
            assert(out.deep_view() =~= out_old.push((kv.0@, kv.1@)));
            assert(out.deep_view() =~= md.deep_view().take(i + 1));
        }
        i = i + 1;
    }
    proof {
        assert(md.deep_view().take(md.len() as int) =~= md.deep_view());
    }
    out
}

/// The value of the first entry of `md` carrying key `k`, if any.
pub open spec fn lookup(md: Seq<(Seq<char>, Seq<char>)>, k: Seq<char>) -> Option<Seq<char>>
    decreases md.len(),
{
    if md.len() == 0 {
        None
    } else if md[0].0 == k {
        Some(md[0].1)
    } else {
        lookup(md.drop_first(), k)
    }
}

/// `Put`: replace the value of the first entry carrying `k`, or append a
/// new entry when the key is absent.
pub open spec fn put_key(
    md: Seq<(Seq<char>, Seq<char>)>,
    k: Seq<char>,
    v: Seq<char>,
) -> Seq<(Seq<char>, Seq<char>)>
    decreases md.len(),
{
    if md.len() == 0 {
        seq![(k, v)]
    } else if md[0].0 == k {
        seq![(k, v)] + md.drop_first()
    } else {
        seq![md[0]] + put_key(md.drop_first(), k, v)
    }
}

/// `Delete`: drop every entry carrying `k`; a no-op when the key is
/// absent.
pub open spec fn delete_key(md: Seq<(Seq<char>, Seq<char>)>, k: Seq<char>) -> Seq<
    (Seq<char>, Seq<char>),
>
    decreases md.len(),
{
    if md.len() == 0 {
        md
    } else {
        let rest = delete_key(md.drop_last(), k);
        if md.last().0 == k {
            rest
        } else {
            rest.push(md.last())
        }
    }
}

/// One patch operation applied to metadata.
pub open spec fn apply_op(md: Seq<(Seq<char>, Seq<char>)>, op: PatchOpView) -> Seq<
    (Seq<char>, Seq<char>),
> {
    match op {
        PatchOpView::Put(k, v) => put_key(md, k, v),
        PatchOpView::Delete(k) => delete_key(md, k),
    }
}

/// A whole patch applied left to right.
pub open spec fn apply_patch(md: Seq<(Seq<char>, Seq<char>)>, ops: Seq<PatchOpView>) -> Seq<
    (Seq<char>, Seq<char>),
>
    decreases ops.len(),
{
    if ops.len() == 0 {
        md
    } else {
        apply_patch(apply_op(md, ops[0]), ops.drop_first())
    }
}

/// A patch of one operation acts as that operation.
pub proof fn lemma_apply_patch_one(md: Seq<(Seq<char>, Seq<char>)>, op: PatchOpView)
    ensures
        apply_patch(md, seq![op]) == apply_op(md, op),
{
    assert(seq![op][0] == op);
    assert(seq![op].drop_first() =~= Seq::<PatchOpView>::empty());
    assert(apply_patch(apply_op(md, op), Seq::<PatchOpView>::empty()) == apply_op(md, op));
}

/// A patch splits at any point: applying the whole equals applying the
/// first part and then the second.
pub proof fn lemma_apply_patch_append(
    md: Seq<(Seq<char>, Seq<char>)>,
    ops1: Seq<PatchOpView>,
    ops2: Seq<PatchOpView>,
)
    ensures
        apply_patch(md, ops1 + ops2) == apply_patch(apply_patch(md, ops1), ops2),
    decreases ops1.len(),
{
    if ops1.len() == 0 {
        assert(ops1 + ops2 =~= ops2);
    } else {
        assert((ops1 + ops2)[0] == ops1[0]);
        assert((ops1 + ops2).drop_first() =~= ops1.drop_first() + ops2);
        lemma_apply_patch_append(apply_op(md, ops1[0]), ops1.drop_first(), ops2);
    }
}

/// No entry of `delete_key(md, k)` carries the key `k`.
pub proof fn lemma_delete_key_gone(md: Seq<(Seq<char>, Seq<char>)>, k: Seq<char>)
    ensures
        forall|i: int|
            0 <= i < delete_key(md, k).len() ==> (#[trigger] delete_key(md, k)[i]).0 != k,
    decreases md.len(),
{
    if md.len() > 0 {
        lemma_delete_key_gone(md.drop_last(), k);
        let rest = delete_key(md.drop_last(), k);
        if md.last().0 != k {
            assert forall|i: int| 0 <= i < rest.push(md.last()).len() implies (#[trigger] rest.push(
                md.last(),
            )[i]).0 != k by {
                if i < rest.len() {
                    assert(rest.push(md.last())[i] == rest[i]);
                }
            }
        }
    }
}

/// Deleting a key from metadata that does not carry it changes nothing.
pub proof fn lemma_delete_key_absent(md: Seq<(Seq<char>, Seq<char>)>, k: Seq<char>)
    requires
        forall|i: int| 0 <= i < md.len() ==> (#[trigger] md[i]).0 != k,
    ensures
        delete_key(md, k) == md,
    decreases md.len(),
{
    if md.len() > 0 {
        assert forall|i: int| 0 <= i < md.drop_last().len() implies (#[trigger] md.drop_last()[
            i]).0 != k by {
            assert(md.drop_last()[i] == md[i]);
        }
        lemma_delete_key_absent(md.drop_last(), k);
        assert(delete_key(md, k) =~= md.drop_last().push(md.last()));
        assert(md.drop_last().push(md.last()) =~= md);
    }
}

/// Deleting the same key twice equals deleting it once.
pub proof fn lemma_delete_idempotent(md: Seq<(Seq<char>, Seq<char>)>, k: Seq<char>)
    ensures
        apply_op(apply_op(md, PatchOpView::Delete(k)), PatchOpView::Delete(k)) == apply_op(
            md,
            PatchOpView::Delete(k),
        ),
{
    lemma_delete_key_gone(md, k);
    lemma_delete_key_absent(delete_key(md, k), k);
}

/// A patch that carries `Delete(k)` twice in a row acts as one that
/// carries it once, whatever stands before and after.
pub proof fn lemma_delete_twice_in_patch(
    md: Seq<(Seq<char>, Seq<char>)>,
    pre: Seq<PatchOpView>,
    post: Seq<PatchOpView>,
    k: Seq<char>,
)
    ensures
        apply_patch(md, pre + seq![PatchOpView::Delete(k), PatchOpView::Delete(k)] + post)
            == apply_patch(md, pre + seq![PatchOpView::Delete(k)] + post),
{
    let d = PatchOpView::Delete(k);
    let m1 = apply_patch(md, pre);
    lemma_apply_patch_append(md, pre, seq![d, d] + post);
    lemma_apply_patch_append(md, pre, seq![d] + post);
    assert(pre + seq![d, d] + post =~= pre + (seq![d, d] + post));
    assert(pre + seq![d] + post =~= pre + (seq![d] + post));
    lemma_apply_patch_append(m1, seq![d, d], post);
    lemma_apply_patch_append(m1, seq![d], post);
    assert(seq![d, d] =~= seq![d] + seq![d]);
    lemma_apply_patch_append(m1, seq![d], seq![d]);
    lemma_apply_patch_one(m1, d);
    lemma_apply_patch_one(apply_op(m1, d), d);
    lemma_delete_idempotent(m1, k);
}

/// After `put_key(md, k, v)` the key `k` is bound to `v`.
pub proof fn lemma_lookup_put(md: Seq<(Seq<char>, Seq<char>)>, k: Seq<char>, v: Seq<char>)
    ensures
        lookup(put_key(md, k, v), k) == Some(v),
    decreases md.len(),
{
    if md.len() == 0 {
    } else if md[0].0 == k {
    } else {
        lemma_lookup_put(md.drop_first(), k, v);
        assert((seq![md[0]] + put_key(md.drop_first(), k, v)).drop_first() =~= put_key(
            md.drop_first(),
            k,
            v,
        ));
    }
}

/// Later `Put`s of the same key override earlier ones: after
/// `[Put(k, a), Put(k, b)]` the key `k` is bound to `b`, on any record.
pub proof fn lemma_put_ordering(
    md: Seq<(Seq<char>, Seq<char>)>,
    k: Seq<char>,
    a: Seq<char>,
    b: Seq<char>,
)
    ensures
        lookup(
            apply_patch(md, seq![PatchOpView::Put(k, a), PatchOpView::Put(k, b)]),
            k,
        ) == Some(b),
{
    let pa = PatchOpView::Put(k, a);
    let pb = PatchOpView::Put(k, b);
    assert(seq![pa, pb] =~= seq![pa] + seq![pb]);
    lemma_apply_patch_append(md, seq![pa], seq![pb]);
    lemma_apply_patch_one(md, pa);
    lemma_apply_patch_one(put_key(md, k, a), pb);
    lemma_lookup_put(put_key(md, k, a), k, b);
}

/// Replacing the first entry carrying an absent key appends it instead.
proof fn lemma_put_key_all_absent(md: Seq<(Seq<char>, Seq<char>)>, k: Seq<char>, v: Seq<char>)
    requires
        forall|i: int| 0 <= i < md.len() ==> (#[trigger] md[i]).0 != k,
    ensures
        put_key(md, k, v) == md.push((k, v)),
    decreases md.len(),
{
    if md.len() == 0 {
        assert(put_key(md, k, v) =~= md.push((k, v)));
    } else {
        assert forall|i: int| 0 <= i < md.drop_first().len() implies (#[trigger] md.drop_first()[
            i]).0 != k by {
            assert(md.drop_first()[i] == md[i + 1]);
        }
        lemma_put_key_all_absent(md.drop_first(), k, v);
        assert(put_key(md, k, v) =~= md.push((k, v)));
    }
}

/// Replacing a key found first at index `i` updates that entry in place.
proof fn lemma_put_key_found(
    md: Seq<(Seq<char>, Seq<char>)>,
    k: Seq<char>,
    v: Seq<char>,
    i: int,
)
    requires
        0 <= i < md.len(),
        md[i].0 == k,
        forall|j: int| 0 <= j < i ==> (#[trigger] md[j]).0 != k,
    ensures
        put_key(md, k, v) == md.update(i, (k, v)),
    decreases i,
{
    if i == 0 {
        assert(put_key(md, k, v) =~= md.update(0, (k, v)));
    } else {
        assert forall|j: int| 0 <= j < i - 1 implies (#[trigger] md.drop_first()[j]).0 != k by {
            assert(md.drop_first()[j] == md[j + 1]);
        }
        assert(md.drop_first()[i - 1].0 == k);
        lemma_put_key_found(md.drop_first(), k, v, i - 1);
        assert(put_key(md, k, v) =~= md.update(i, (k, v)));
    }
}

/// Looking a key up in metadata that does not carry it yields nothing.
proof fn lemma_lookup_all_absent(md: Seq<(Seq<char>, Seq<char>)>, k: Seq<char>)
    requires
        forall|i: int| 0 <= i < md.len() ==> (#[trigger] md[i]).0 != k,
    ensures
        lookup(md, k) is None,
    decreases md.len(),
{
    if md.len() > 0 {
        assert forall|i: int| 0 <= i < md.drop_first().len() implies (#[trigger] md.drop_first()[
            i]).0 != k by {
            assert(md.drop_first()[i] == md[i + 1]);
        }
        lemma_lookup_all_absent(md.drop_first(), k);
    }
}

/// A key found first at index `i` looks up to that entry's value.
proof fn lemma_lookup_found(md: Seq<(Seq<char>, Seq<char>)>, k: Seq<char>, i: int)
    requires
        0 <= i < md.len(),
        md[i].0 == k,
        forall|j: int| 0 <= j < i ==> (#[trigger] md[j]).0 != k,
    ensures
        lookup(md, k) == Some(md[i].1),
    decreases i,
{
    if i > 0 {
        assert forall|j: int| 0 <= j < i - 1 implies (#[trigger] md.drop_first()[j]).0 != k by {
            assert(md.drop_first()[j] == md[j + 1]);
        }
        assert(md.drop_first()[i - 1] == md[i]);
        lemma_lookup_found(md.drop_first(), k, i - 1);
    }
}

impl Record {
    /// Index of the first metadata entry carrying `key`, if any.
    fn find_key_index(&self, key: &str) -> (r: Option<usize>)
        ensures
            match r {
                Some(i) => i < self@.metadata.len() && self@.metadata[i as int].0 == key@
                    && forall|j: int| 0 <= j < i ==> (#[trigger] self@.metadata[j]).0 != key@,
                None => forall|j: int|
                    0 <= j < self@.metadata.len() ==> (#[trigger] self@.metadata[j]).0 != key@,
            },
    {
        let mut i: usize = 0;
        while i < self.metadata.len()
            invariant
                0 <= i <= self.metadata.len(),
                self@.metadata.len() == self.metadata.len(),
                forall|j: int| 0 <= j < i ==> (#[trigger] self@.metadata[j]).0 != key@,
            decreases self.metadata.len() - i,
        {
            let kv: &(String, String) = &self.metadata[i];
            if str_eq(kv.0.as_str(), key) {
                assert(self@.metadata[i as int] == (kv.0@, kv.1@));
                return Some(i);
            }
            proof {
                assert(self@.metadata[i as int] == (kv.0@, kv.1@));
            }
            i = i + 1;
        }
        None
    }

    /// The value bound to `key`, if the record carries it.
    pub fn lookup_value(&self, key: &str) -> (r: Option<String>)
        ensures
            match r {
                Some(v) => lookup(self@.metadata, key@) == Some(v@),
                None => lookup(self@.metadata, key@) is None,
            },
    {
        match self.find_key_index(key) {
            Some(i) => {
                let kv: &(String, String) = &self.metadata[i];
                proof {
                    assert(self@.metadata[i as int] == (kv.0@, kv.1@));
                    lemma_lookup_found(self@.metadata, key@, i as int);
                }
                Some(kv.1.clone())
            },
            None => {
                proof {
                    lemma_lookup_all_absent(self@.metadata, key@);
                }
                None
            },
        }
    }

    /// Applies one patch operation to the metadata, leaving the secret as
    /// it stands.
    fn apply_op(&mut self, op: &PatchOp)
        ensures
            final(self)@.secret == old(self)@.secret,
            final(self)@.metadata == apply_op(old(self)@.metadata, op@),
    {
        match op {
            PatchOp::Put(k, v) => {
                match self.find_key_index(k.as_str()) {
                    Some(i) => {
                        let mut out: Vec<(String, String)> = Vec::new();
                        let ghost target = old(self)@.metadata.update(i as int, (k@, v@));
                        let mut j: usize = 0;
                        while j < self.metadata.len()
                            invariant
                                0 <= j <= self.metadata.len(),
                                i < self.metadata.len(),
                                self@ == old(self)@,
                                self@.metadata.len() == self.metadata.len(),
                                target == old(self)@.metadata.update(i as int, (k@, v@)),
                                out.deep_view() =~= target.take(j as int),
                            decreases self.metadata.len() - j,
                        {
                            let kv: &(String, String) = &self.metadata[j];
                            proof {
                                assert(self@.metadata[j as int] == (kv.0@, kv.1@));
                            }
                            let ghost out_old = out.deep_view();
                            if j == i {
                                out.push((k.clone(), v.clone()));
                                proof {
                                    assert(out.deep_view() =~= out_old.push((k@, v@)));
                                    assert(out.deep_view() =~= target.take(j + 1));
                                }
                            } else {
                                out.push((kv.0.clone(), kv.1.clone()));
                                proof {
                                    assert(out.deep_view() =~= out_old.push((kv.0@, kv.1@)));
                                    assert(out.deep_view() =~= target.take(j + 1));
                                }
                            }
                            j = j + 1;
                        }
                        proof {
                            assert(target.take(self.metadata.len() as int) =~= target);
                            lemma_put_key_found(old(self)@.metadata, k@, v@, i as int);
                        }
                        self.metadata = out;
                    },
                    None => {
                        proof {
                            lemma_put_key_all_absent(old(self)@.metadata, k@, v@);
                        }
                        let ghost md_old = self.metadata.deep_view();
                        self.metadata.push((k.clone(), v.clone()));
                        proof {
                            assert(self.metadata.deep_view() =~= md_old.push((k@, v@)));
                        }
                    },
                }
            },
            PatchOp::Delete(k) => {
                let mut out: Vec<(String, String)> = Vec::new();
                proof {
                    assert(old(self)@.metadata.take(0) =~= Seq::<(Seq<char>, Seq<char>)>::empty());
                }
                let mut j: usize = 0;
                while j < self.metadata.len()
                    invariant
                        0 <= j <= self.metadata.len(),
                        self@ == old(self)@,
                        self@.metadata.len() == self.metadata.len(),
                        out.deep_view() =~= delete_key(old(self)@.metadata.take(j as int), k@),
                    decreases self.metadata.len() - j,
                {
                    let kv: &(String, String) = &self.metadata[j];
                    proof {
                        assert(self@.metadata[j as int] == (kv.0@, kv.1@));
                        assert(old(self)@.metadata.take(j + 1).drop_last() =~= old(
                            self,
                        )@.metadata.take(j as int));
                        assert(old(self)@.metadata.take(j + 1).last() == (kv.0@, kv.1@));
                    }
                    let ghost out_old = out.deep_view();
                    if !str_eq(kv.0.as_str(), k.as_str()) {
                        out.push((kv.0.clone(), kv.1.clone()));
                        proof {
                            assert(out.deep_view() =~= out_old.push((kv.0@, kv.1@)));
                        }
                    }
                    j = j + 1;
                }
                proof {
                    assert(old(self)@.metadata.take(self.metadata.len() as int) =~= old(
                        self,
                    )@.metadata);
                }
                self.metadata = out;
            },
        }
    }

    /// Applies a whole patch to the metadata, left to right; the secret is
    /// untouched.
    pub fn apply(&mut self, patch: &Vec<PatchOp>)
        ensures
            final(self)@.secret == old(self)@.secret,
            final(self)@.metadata == apply_patch(old(self)@.metadata, patch.deep_view()),
    {
        let ghost ops = patch.deep_view();
        proof {
            assert(ops.skip(0) =~= ops);
        }
        let mut i: usize = 0;
        while i < patch.len()
            invariant
                0 <= i <= patch.len(),
                ops == patch.deep_view(),
                ops.len() == patch.len(),
                self@.secret == old(self)@.secret,
                apply_patch(old(self)@.metadata, ops) == apply_patch(
                    self@.metadata,
                    ops.skip(i as int),
                ),
            decreases patch.len() - i,
        {
            let op: &PatchOp = &patch[i];
            proof {
                assert(ops[i as int] == op@);
                assert(ops.skip(i as int)[0] == ops[i as int]);
                assert(ops.skip(i as int).drop_first() =~= ops.skip(i + 1));
            }
            self.apply_op(op);
            i = i + 1;
        }
        proof {
            assert(ops.skip(patch.len() as int) =~= Seq::<PatchOpView>::empty());
        }
    }
}

} // verus!
