//! Archives as byte sequences: entries of header, content and padding,
//! sealed by a footer, written and walked in order.
use vstd::arithmetic::div_mod::{lemma_fundamental_div_mod, lemma_fundamental_div_mod_converse};
use vstd::prelude::*;

use crate::field::{zeros, TarError};
use crate::header::{
    all_zero, decode_block, decoded_form, encode, encode_error, encodable, lemma_round_trip, Header,
    HeaderModel,
};

verus! {

/// Zero bytes that follow `n` bytes of content up to the next block boundary.
pub open spec fn padding_len(n: nat) -> nat {
    ((512 - n % 512) % 512) as nat
}

/// Bytes that `n` bytes of content take with their padding.
pub open spec fn padded_len(n: nat) -> nat {
    n + padding_len(n)
}

/// The padding after `n` bytes of content is `ceil(n / 512) * 512 - n`: the
/// content and its padding fill whole blocks, less than one block more than
/// the content.
pub proof fn lemma_block_alignment(n: nat)
    ensures
        padded_len(n) == ((n + 511) / 512) * 512,
        padded_len(n) % 512 == 0,
        n <= padded_len(n) < n + 512,
{
    let q: int = n as int / 512;
    let r: int = n as int % 512;
    lemma_fundamental_div_mod(n as int, 512);
    if r == 0 {
        lemma_fundamental_div_mod_converse(n as int + 511, 512, q, 511);
        lemma_fundamental_div_mod_converse(n as int, 512, q, 0);
    } else {
        lemma_fundamental_div_mod_converse(n as int + 511, 512, q + 1, r - 1);
        lemma_fundamental_div_mod_converse(padded_len(n) as int, 512, q + 1, 0);
    }
}

/// The number of zero bytes that pad `size` bytes of content.
pub fn padding_size(size: u64) -> (r: u64)
    ensures
        r == padding_len(size as nat),
{
    (512 - size % 512) % 512
}

/// One file of an archive: its header and its content.
pub struct Entry {
    pub header: Header,
    pub content: Vec<u8>,
}

impl View for Entry {
    type V = (HeaderModel, Seq<u8>);

    open spec fn view(&self) -> (HeaderModel, Seq<u8>) {
        (self.header@, self.content@)
    }
}

impl Entry {
    /// The content is as long as the header says.
    pub open spec fn wf(&self) -> bool {
        self.content@.len() == self.header.size
    }
}

pub open spec fn entries_view(es: Seq<Entry>) -> Seq<(HeaderModel, Seq<u8>)> {
    es.map_values(|e: Entry| e@)
}

/// The bytes of one entry: record, content, padding.
#[verifier::opaque]
pub open spec fn entry_bytes(e: (HeaderModel, Seq<u8>)) -> Seq<u8> {
    encode(e.0) + e.1 + zeros(padding_len(e.1.len()))
}

/// The bytes of a sequence of entries, in order.
pub open spec fn entries_bytes(es: Seq<(HeaderModel, Seq<u8>)>) -> Seq<u8>
    decreases es.len(),
{
    if es.len() == 0 {
        Seq::empty()
    } else {
        entries_bytes(es.drop_last()) + entry_bytes(es.last())
    }
}

/// The first entry, in order, whose header cannot be encoded, and why.
pub open spec fn first_error(es: Seq<(HeaderModel, Seq<u8>)>) -> Option<TarError>
    decreases es.len(),
{
    if es.len() == 0 {
        None
    } else {
        match first_error(es.drop_last()) {
            Some(e) => Some(e),
            None => encode_error(es.last().0),
        }
    }
}

/// Entry `k` is the first whose header cannot be encoded, for the reason `e`.
pub open spec fn fails_at(es: Seq<(HeaderModel, Seq<u8>)>, k: int, e: TarError) -> bool {
    0 <= k < es.len() && first_error(es.take(k)) is None && encode_error(es[k].0) == Some(e)
}

/// An archive of the given entries: the entries and a footer.
pub open spec fn archive_bytes(es: Seq<(HeaderModel, Seq<u8>)>) -> Seq<u8> {
    entries_bytes(es) + zeros(1024)
}

/// Appends the record of the entry's header, its content, and zero padding
/// to the next block boundary.
pub fn write_entry(archive: &mut Vec<u8>, entry: &Entry) -> (r: Result<(), TarError>)
    requires
        entry.wf(),
    ensures
        match r {
            Ok(_) => encode_error(entry.header@) is None && final(archive)@ == old(archive)@
                + entry_bytes(entry@),
            Err(e) => encode_error(entry.header@) == Some(e) && final(archive)@ == old(archive)@,
        },
{
    entry.header.write(archive)?;
    archive.extend_from_slice(entry.content.as_slice());
    let pad: usize = padding_size(entry.header.size) as usize;
    let zero_fill: Vec<u8> = vec![0u8; pad];
    archive.extend_from_slice(zero_fill.as_slice());
    assert(zero_fill@ =~= zeros(padding_len(entry.content@.len())));
    reveal(entry_bytes);
    assert(final(archive)@ =~= old(archive)@ + entry_bytes(entry@));
    Ok(())
}

/// Appends the footer: two blocks of zero bytes.
pub fn write_footer(archive: &mut Vec<u8>)
    ensures
        final(archive)@ == old(archive)@ + zeros(1024),
{
    let footer: Vec<u8> = vec![0u8; crate::FOOTER_SIZE];
    archive.extend_from_slice(footer.as_slice());
    assert(footer@ =~= zeros(1024));
}

/// Appends the entries in order, then the footer. On an error the entries
/// before the failing one stay written.
pub fn write_files_to_archive(archive: &mut Vec<u8>, entries: &[Entry]) -> (r: Result<
    (),
    TarError,
>)
    requires
        forall|i: int| 0 <= i < entries@.len() ==> (#[trigger] entries@[i]).wf(),
    ensures
        match r {
            Ok(_) => first_error(entries_view(entries@)) is None && final(archive)@ == old(
                archive,
            )@ + archive_bytes(entries_view(entries@)),
            Err(e) => first_error(entries_view(entries@)) == Some(e) && exists|k: int|
                #[trigger] fails_at(entries_view(entries@), k, e) && final(archive)@ == old(
                    archive,
                )@ + entries_bytes(entries_view(entries@).take(k)),
        },
{
    let ghost es = entries_view(entries@);
    let mut i: usize = 0;
    while i < entries.len()
        invariant
            i <= entries@.len(),
            es == entries_view(entries@),
            forall|k: int| 0 <= k < entries@.len() ==> (#[trigger] entries@[k]).wf(),
            first_error(es.take(i as int)) is None,
            archive@ == old(archive)@ + entries_bytes(es.take(i as int)),
        decreases entries@.len() - i,
    {
        let ghost before = archive@;
        let res = write_entry(archive, &entries[i]);
        proof {
            assert(es.take(i as int + 1).drop_last() =~= es.take(i as int));
            assert(es.take(i as int + 1).last() == entries@[i as int]@);
        }
        match res {
            Err(e) => {
                proof {
                    lemma_first_error_extends(es, i as int + 1);
                    assert(fails_at(es, i as int, e));
                }
                return Err(e);
            },
            Ok(_) => {},
        }
        i = i + 1;
    }
    write_footer(archive);
    assert(es.take(i as int) =~= es);
    Ok(())
}

/// An error among the first entries is the first error of them all.
pub proof fn lemma_first_error_extends(es: Seq<(HeaderModel, Seq<u8>)>, n: int)
    requires
        0 <= n <= es.len(),
        first_error(es.take(n)) is Some,
    ensures
        first_error(es) == first_error(es.take(n)),
    decreases es.len() - n,
{
    if n < es.len() {
        assert(es.take(n + 1).drop_last() =~= es.take(n));
        lemma_first_error_extends(es, n + 1);
    } else {
        assert(es.take(n) =~= es);
    }
}

/// A new archive of the entries, in order.
pub fn create_archive(entries: &[Entry]) -> (r: Result<Vec<u8>, TarError>)
    requires
        forall|i: int| 0 <= i < entries@.len() ==> (#[trigger] entries@[i]).wf(),
    ensures
        match r {
            Ok(v) => first_error(entries_view(entries@)) is None && v@ == archive_bytes(
                entries_view(entries@),
            ),
            Err(e) => first_error(entries_view(entries@)) == Some(e),
        },
{
    let mut archive: Vec<u8> = Vec::new();
    write_files_to_archive(&mut archive, entries)?;
    assert(archive@ =~= archive_bytes(entries_view(entries@)));
    Ok(archive)
}

/// What appending entries to an archive leads to: the footer, the last 1024
/// bytes, gives way to the new entries and a new footer. When an entry cannot
/// be encoded, the entries before it stay written and nothing follows them.
pub open spec fn append_outcome(
    old_archive: Seq<u8>,
    es: Seq<(HeaderModel, Seq<u8>)>,
    r: Result<(), TarError>,
    new_archive: Seq<u8>,
) -> bool {
    if old_archive.len() < 1024 {
        r == Err::<(), TarError>(TarError::Truncated) && new_archive == old_archive
    } else {
        match first_error(es) {
            Some(e) => r == Err::<(), TarError>(e) && exists|k: int|
                #[trigger] fails_at(es, k, e) && new_archive == old_archive.take(
                    old_archive.len() - 1024,
                ) + entries_bytes(es.take(k)),
            None => r is Ok && new_archive == old_archive.take(old_archive.len() - 1024)
                + archive_bytes(es),
        }
    }
}

/// Appends entries to an archive: they overwrite its footer, and a new footer
/// follows them.
pub fn append_to_archive(archive: &mut Vec<u8>, entries: &[Entry]) -> (r: Result<(), TarError>)
    requires
        forall|i: int| 0 <= i < entries@.len() ==> (#[trigger] entries@[i]).wf(),
    ensures
        append_outcome(old(archive)@, entries_view(entries@), r, final(archive)@),
{
    if archive.len() < crate::FOOTER_SIZE {
        return Err(TarError::Truncated);
    }
    let keep: usize = archive.len() - crate::FOOTER_SIZE;
    archive.truncate(keep);
    let ghost kept = archive@;
    assert(kept =~= old(archive)@.take(old(archive)@.len() - 1024));
    let r = write_files_to_archive(archive, entries);
    assert(r is Ok ==> final(archive)@ =~= kept + archive_bytes(entries_view(entries@)));
    r
}

/// One step of a walk over an archive from the header expected at `pos`:
/// the end, or the header with the offset of its content.
pub open spec fn step(b: Seq<u8>, pos: nat) -> Result<Option<(HeaderModel, nat)>, TarError> {
    if pos + 512 > b.len() {
        Err(TarError::Truncated)
    } else {
        match decode_block(b.subrange(pos as int, pos as int + 512)) {
            Err(e) => Err(e),
            Ok(None) => Ok(None),
            Ok(Some(h)) => if pos + 512 + padded_len(h.size as nat) > b.len() {
                Err(TarError::Truncated)
            } else {
                Ok(Some((h, pos + 512)))
            },
        }
    }
}

/// The entries of an archive from the header expected at `pos` on, each a
/// header with the offset of its content, up to the first all-zero block.
pub open spec fn scan(b: Seq<u8>, pos: nat) -> Result<Seq<(HeaderModel, nat)>, TarError>
    decreases b.len() - pos,
{
    if pos + 512 > b.len() {
        Err(TarError::Truncated)
    } else {
        match step(b, pos) {
            Err(e) => Err(e),
            Ok(None) => Ok(Seq::empty()),
            Ok(Some(p)) => match scan(b, p.1 + padded_len(p.0.size as nat)) {
                Ok(rest) => Ok(seq![p] + rest),
                Err(e) => Err(e),
            },
        }
    }
}

/// The entries of a whole archive.
pub open spec fn entries_of(b: Seq<u8>) -> Result<Seq<(HeaderModel, nat)>, TarError> {
    scan(b, 0)
}

/// The content of an entry found by a walk.
pub open spec fn content_of(b: Seq<u8>, p: (HeaderModel, nat)) -> Seq<u8> {
    b.subrange(p.1 as int, p.1 as int + p.0.size)
}

pub open spec fn prepend(done: Seq<(HeaderModel, nat)>, r: Result<Seq<(HeaderModel, nat)>, TarError>) -> Result<Seq<(HeaderModel, nat)>, TarError> {
    match r {
        Ok(rest) => Ok(done + rest),
        Err(e) => Err(e),
    }
}

/// Reads the header expected at `pos`: `None` at the end of the archive,
/// else the header, the offset of its content and the offset of the next header.
pub fn next_entry(archive: &[u8], pos: usize) -> (r: Result<Option<(Header, usize, usize)>, TarError>)
    ensures
        match r {
            Ok(Some((h, start, next))) => step(archive@, pos as nat) == Ok::<
                Option<(HeaderModel, nat)>,
                TarError,
            >(Some((h@, start as nat))) && next == start + padded_len(h.size as nat),
            Ok(None) => step(archive@, pos as nat) == Ok::<Option<(HeaderModel, nat)>, TarError>(None),
            Err(e) => step(archive@, pos as nat) == Err::<Option<(HeaderModel, nat)>, TarError>(e),
        },
{
    if archive.len() < 512 || pos > archive.len() - 512 {
        return Err(TarError::Truncated);
    }
    let block = vstd::slice::slice_subrange(archive, pos, pos + 512);
    match Header::read(block) {
        Err(e) => Err(e),
        Ok(None) => Ok(None),
        Ok(Some(h)) => {
            let start: usize = pos + 512;
            let remaining: usize = archive.len() - start;
            if h.size > remaining as u64 {
                return Err(TarError::Truncated);
            }
            let pad: u64 = padding_size(h.size);
            if pad > remaining as u64 - h.size {
                return Err(TarError::Truncated);
            }
            let next: usize = start + (h.size + pad) as usize;
            Ok(Some((h, start, next)))
        },
    }
}

/// The names of the entries, in the order they appear.
pub fn get_archive_file_list(archive: &[u8]) -> (r: Result<Vec<Vec<u8>>, TarError>)
    ensures
        match r {
            Ok(names) => entries_of(archive@) matches Ok(es) && names@.len() == es.len() && forall|
                i: int,
            |
                0 <= i < es.len() ==> (#[trigger] names@[i])@ == es[i].0.name,
            Err(e) => entries_of(archive@) == Err::<Seq<(HeaderModel, nat)>, TarError>(e),
        },
{
    let ghost b = archive@;
    let mut names: Vec<Vec<u8>> = Vec::new();
    let ghost mut done: Seq<(HeaderModel, nat)> = Seq::empty();
    let mut pos: usize = 0;
    assert(done + Seq::<(HeaderModel, nat)>::empty() =~= Seq::<(HeaderModel, nat)>::empty());
    assert(prepend(done, scan(b, 0)) == scan(b, 0)) by {
        match scan(b, 0) {
            Ok(rest) => assert(done + rest =~= rest),
            Err(_) => {},
        }
    }
    loop
        invariant
            b == archive@,
            names@.len() == done.len(),
            forall|i: int| 0 <= i < done.len() ==> (#[trigger] names@[i])@ == done[i].0.name,
            scan(b, 0) == prepend(done, scan(b, pos as nat)),
        decreases b.len() - pos,
    {
        match next_entry(archive, pos) {
            Err(e) => {
                return Err(e);
            },
            Ok(None) => {
                assert(done + Seq::<(HeaderModel, nat)>::empty() =~= done);
                return Ok(names);
            },
            Ok(Some((h, start, next))) => {
                let ghost p = (h@, start as nat);
                proof {
                    match scan(b, next as nat) {
                        Ok(rest) => assert(done.push(p) + rest =~= done + (seq![p] + rest)),
                        Err(_) => {},
                    }
                    done = done.push(p);
                }
                names.push(h.name);
                pos = next;
            },
        }
    }
}

/// Every entry of the archive with its content, in order.
pub fn extract_from_archive(archive: &[u8]) -> (r: Result<Vec<Entry>, TarError>)
    ensures
        match r {
            Ok(out) => entries_of(archive@) matches Ok(es) && out@.len() == es.len() && forall|
                i: int,
            |
                0 <= i < es.len() ==> (#[trigger] out@[i]).header@ == es[i].0 && out@[i].content@
                    == content_of(archive@, es[i]),
            Err(e) => entries_of(archive@) == Err::<Seq<(HeaderModel, nat)>, TarError>(e),
        },
{
    let ghost b = archive@;
    let mut out: Vec<Entry> = Vec::new();
    let ghost mut done: Seq<(HeaderModel, nat)> = Seq::empty();
    let mut pos: usize = 0;
    assert(prepend(done, scan(b, 0)) == scan(b, 0)) by {
        match scan(b, 0) {
            Ok(rest) => assert(done + rest =~= rest),
            Err(_) => {},
        }
    }
    loop
        invariant
            b == archive@,
            out@.len() == done.len(),
            forall|i: int|
                0 <= i < done.len() ==> (#[trigger] out@[i]).header@ == done[i].0 && out@[i].content@
                    == content_of(b, done[i]),
            scan(b, 0) == prepend(done, scan(b, pos as nat)),
        decreases b.len() - pos,
    {
        match next_entry(archive, pos) {
            Err(e) => {
                return Err(e);
            },
            Ok(None) => {
                assert(done + Seq::<(HeaderModel, nat)>::empty() =~= done);
                return Ok(out);
            },
            Ok(Some((h, start, next))) => {
                let ghost p = (h@, start as nat);
                proof {
                    match scan(b, next as nat) {
                        Ok(rest) => assert(done.push(p) + rest =~= done + (seq![p] + rest)),
                        Err(_) => {},
                    }
                    done = done.push(p);
                }
                let end: usize = start + h.size as usize;
                let content = vstd::slice::slice_to_vec(vstd::slice::slice_subrange(archive, start, end));
                out.push(Entry { header: h, content });
                pos = next;
            },
        }
    }
}

/// Every requested entry's name is the name of an entry found in the archive.
pub open spec fn names_present(
    found: Seq<(HeaderModel, nat)>,
    requested: Seq<(HeaderModel, Seq<u8>)>,
) -> bool {
    forall|i: int|
        0 <= i < requested.len() ==> exists|j: int|
            0 <= j < found.len() && found[j].0.name == (#[trigger] requested[i]).0.name
}

fn same_bytes(a: &[u8], b: &[u8]) -> (r: bool)
    ensures
        r == (a@ == b@),
{
    if a.len() != b.len() {
        return false;
    }
    let mut i: usize = 0;
    while i < a.len()
        invariant
            i <= a@.len(),
            a@.len() == b@.len(),
            forall|j: int| 0 <= j < i ==> a@[j] == b@[j],
        decreases a@.len() - i,
    {
        if a[i] != b[i] {
            return false;
        }
        i = i + 1;
    }
    assert(a@ =~= b@);
    true
}

fn contains_name(names: &Vec<Vec<u8>>, name: &Vec<u8>) -> (r: bool)
    ensures
        r == exists|j: int| 0 <= j < names@.len() && (#[trigger] names@[j])@ == name@,
{
    let mut j: usize = 0;
    while j < names.len()
        invariant
            j <= names@.len(),
            forall|k: int| 0 <= k < j ==> (#[trigger] names@[k])@ != name@,
        decreases names@.len() - j,
    {
        if same_bytes(names[j].as_slice(), name.as_slice()) {
            return true;
        }
        j = j + 1;
    }
    false
}

/// Appends new copies of entries that the archive already holds: fails with
/// `NotInArchive`, leaving the archive as it was, when one of the names is
/// not among the archive's entries.
pub fn update_archive(archive: &mut Vec<u8>, entries: &[Entry]) -> (r: Result<(), TarError>)
    requires
        forall|i: int| 0 <= i < entries@.len() ==> (#[trigger] entries@[i]).wf(),
    ensures
        entries_of(old(archive)@) is Ok && old(archive)@.len() >= 1024 && first_error(
            entries_view(entries@),
        ) is None ==> (r is Ok <==> names_present(
            entries_of(old(archive)@)->Ok_0,
            entries_view(entries@),
        )),
        match entries_of(old(archive)@) {
            Err(e) => r == Err::<(), TarError>(e) && final(archive)@ == old(archive)@,
            Ok(found) => if names_present(found, entries_view(entries@)) {
                append_outcome(old(archive)@, entries_view(entries@), r, final(archive)@)
            } else {
                r == Err::<(), TarError>(TarError::NotInArchive) && final(archive)@ == old(
                    archive,
                )@
            },
        },
{
    let names = get_archive_file_list(archive.as_slice())?;
    let ghost found = entries_of(old(archive)@)->Ok_0;
    let ghost req = entries_view(entries@);
    let mut i: usize = 0;
    while i < entries.len()
        invariant
            i <= entries@.len(),
            req == entries_view(entries@),
            archive@ == old(archive)@,
            entries_of(old(archive)@) == Ok::<Seq<(HeaderModel, nat)>, TarError>(found),
            names@.len() == found.len(),
            forall|k: int| 0 <= k < found.len() ==> (#[trigger] names@[k])@ == found[k].0.name,
            forall|k: int|
                0 <= k < i ==> exists|j: int|
                    0 <= j < found.len() && found[j].0.name == (#[trigger] req[k]).0.name,
        decreases entries@.len() - i,
    {
        if !contains_name(&names, &entries[i].header.name) {
            proof {
                assert(req[i as int].0.name == entries@[i as int].header.name@);
                assert forall|j: int| 0 <= j < found.len() implies found[j].0.name != req[i as int].0.name by {
                    assert(names@[j]@ == found[j].0.name);
                }
                assert(!names_present(found, req));
            }
            return Err(TarError::NotInArchive);
        }
        proof {
            let j = choose|j: int| 0 <= j < names@.len() && (#[trigger] names@[j])@ == entries@[i as int].header.name@;
            assert(found[j].0.name == req[i as int].0.name);
        }
        i = i + 1;
    }
    append_to_archive(archive, entries)
}

/// An entry that can be written and read back: its header fits the record,
/// and its content is as long as the header says.
pub open spec fn valid_entry(e: (HeaderModel, Seq<u8>)) -> bool {
    encodable(e.0) && e.0.magic.len() == 6 && e.0.version.len() == 2 && e.1.len() == e.0.size
}

#[verifier::rlimit(50)]
pub proof fn lemma_entries_bytes_first(es: Seq<(HeaderModel, Seq<u8>)>)
    requires
        es.len() > 0,
    ensures
        entries_bytes(es) == entry_bytes(es[0]) + entries_bytes(es.drop_first()),
    decreases es.len(),
{
    if es.len() == 1 {
        assert(es.drop_last() =~= Seq::<(HeaderModel, Seq<u8>)>::empty());
        assert(es.drop_first() =~= Seq::<(HeaderModel, Seq<u8>)>::empty());
        assert(entries_bytes(es) =~= entry_bytes(es[0]) + entries_bytes(es.drop_first()));
    } else {
        lemma_entries_bytes_first(es.drop_last());
        assert(es.drop_last().drop_first() =~= es.drop_first().drop_last());
        assert(es.drop_first().last() == es.last());
        assert(entries_bytes(es) =~= entry_bytes(es[0]) + entries_bytes(es.drop_first()));
    }
}

pub proof fn lemma_entries_bytes_concat(a: Seq<(HeaderModel, Seq<u8>)>, b: Seq<(HeaderModel, Seq<u8>)>)
    ensures
        entries_bytes(a + b) == entries_bytes(a) + entries_bytes(b),
    decreases b.len(),
{
    if b.len() == 0 {
        assert(a + b =~= a);
        assert(entries_bytes(a) + entries_bytes(b) =~= entries_bytes(a));
    } else {
        lemma_entries_bytes_concat(a, b.drop_last());
        assert((a + b).drop_last() =~= a + b.drop_last());
        assert(entries_bytes(a + b) =~= entries_bytes(a) + entries_bytes(b));
    }
}

/// A walk reaching an entry's record reads its header, finds its content
/// right after it, and goes on after the padding.
#[verifier::rlimit(50)]
proof fn lemma_step_entry(p: Seq<u8>, e: (HeaderModel, Seq<u8>), rest: Seq<u8>)
    requires
        valid_entry(e),
    ensures
        step(p + entry_bytes(e) + rest, p.len()) == Ok::<Option<(HeaderModel, nat)>, TarError>(
            Some((decoded_form(e.0), p.len() + 512)),
        ),
        p.len() + 512 + padded_len(e.0.size as nat) == (p + entry_bytes(e)).len(),
        content_of(p + entry_bytes(e) + rest, (decoded_form(e.0), p.len() + 512)) == e.1,
{
    reveal(entry_bytes);
    let b = p + entry_bytes(e) + rest;
    let pos = p.len();
    lemma_round_trip(e.0);
    lemma_block_alignment(e.1.len());
    assert(b.subrange(pos as int, pos as int + 512) =~= encode(e.0));
    assert(content_of(b, (decoded_form(e.0), pos + 512)) =~= e.1);
}

proof fn lemma_archive_split(p: Seq<u8>, es: Seq<(HeaderModel, Seq<u8>)>)
    requires
        es.len() > 0,
    ensures
        p + archive_bytes(es) == (p + entry_bytes(es[0])) + archive_bytes(es.drop_first()),
{
    lemma_entries_bytes_first(es);
    assert(p + archive_bytes(es) =~= (p + entry_bytes(es[0])) + archive_bytes(es.drop_first()));
}

#[verifier::rlimit(50)]
proof fn lemma_walk_from(p: Seq<u8>, es: Seq<(HeaderModel, Seq<u8>)>)
    requires
        forall|i: int| 0 <= i < es.len() ==> valid_entry(#[trigger] es[i]),
    ensures
        scan(p + archive_bytes(es), p.len()) matches Ok(found) && found.len() == es.len() && forall|
            i: int,
        |
            0 <= i < es.len() ==> (#[trigger] found[i]).0 == decoded_form(es[i].0) && content_of(
                p + archive_bytes(es),
                found[i],
            ) == es[i].1,
    decreases es.len(),
{
    let b = p + archive_bytes(es);
    let pos = p.len();
    if es.len() == 0 {
        assert(entries_bytes(es) =~= Seq::<u8>::empty());
        let blk = b.subrange(pos as int, pos as int + 512);
        assert(all_zero(blk.take(512)));
        assert(step(b, pos) == Ok::<Option<(HeaderModel, nat)>, TarError>(None));
    } else {
        let e0 = es[0];
        let rest = es.drop_first();
        assert(valid_entry(e0));
        let after = p + entry_bytes(e0);
        lemma_archive_split(p, es);
        lemma_step_entry(p, e0, archive_bytes(rest));
        let start = pos + 512;
        assert forall|i: int| 0 <= i < rest.len() implies valid_entry(#[trigger] rest[i]) by {
            assert(rest[i] == es[i + 1]);
        }
        lemma_walk_from(after, rest);
        let found_rest = scan(b, after.len())->Ok_0;
        let found = seq![(decoded_form(e0.0), start)] + found_rest;
        assert(scan(b, pos) == Ok::<Seq<(HeaderModel, nat)>, TarError>(found));
        assert forall|i: int| 0 <= i < es.len() implies (#[trigger] found[i]).0 == decoded_form(
            es[i].0,
        ) && content_of(b, found[i]) == es[i].1 by {
            if i > 0 {
                assert(found[i] == found_rest[i - 1]);
                assert(es[i] == rest[i - 1]);
            }
        }
    }
}

/// Walking an archive made of valid entries finds those entries in order:
/// each header as it was written (an empty link read back as none), each
/// content as it was written.
pub proof fn lemma_walk_created(es: Seq<(HeaderModel, Seq<u8>)>)
    requires
        forall|i: int| 0 <= i < es.len() ==> valid_entry(#[trigger] es[i]),
    ensures
        entries_of(archive_bytes(es)) matches Ok(found) && found.len() == es.len() && forall|
            i: int,
        |
            0 <= i < es.len() ==> (#[trigger] found[i]).0 == decoded_form(es[i].0) && content_of(
                archive_bytes(es),
                found[i],
            ) == es[i].1,
{
    lemma_walk_from(Seq::empty(), es);
    assert(Seq::<u8>::empty() + archive_bytes(es) =~= archive_bytes(es));
}

/// Appending entries to an archive made of entries gives the archive made of
/// both, in order: the old footer is gone and one new footer ends it.
pub proof fn lemma_append_created(
    first: Seq<(HeaderModel, Seq<u8>)>,
    more: Seq<(HeaderModel, Seq<u8>)>,
)
    ensures
        archive_bytes(first).len() >= 1024,
        archive_bytes(first).take(archive_bytes(first).len() - 1024) + archive_bytes(more)
            == archive_bytes(first + more),
{
    lemma_entries_bytes_concat(first, more);
    let a = archive_bytes(first);
    assert(a.take(a.len() - 1024) =~= entries_bytes(first));
    assert(entries_bytes(first) + archive_bytes(more) =~= archive_bytes(first + more));
}

/// Wherever a walk meets a block of 512 zero bytes where a header is
/// expected, the archive ends there: nothing after it is read.
pub proof fn lemma_zero_block_ends_walk(b: Seq<u8>, pos: nat)
    requires
        pos + 512 <= b.len(),
        all_zero(b.subrange(pos as int, pos as int + 512)),
    ensures
        scan(b, pos) == Ok::<Seq<(HeaderModel, nat)>, TarError>(Seq::empty()),
{
    let blk = b.subrange(pos as int, pos as int + 512);
    assert(blk.take(512) =~= blk);
}

} // verus!
