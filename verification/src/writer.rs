//! The archive writer: a state machine that turns entries and payloads into archive bytes.
//!
//! The writer performs no input or output. Every successful call appends the bytes that
//! belong into the archive to a pending buffer, which the caller takes and stores.

use vstd::prelude::*;
use vstd::slice::slice_to_vec;
use crate::constants::BUFFER_SIZE;
use crate::crypto::{encrypt, generate_key, spec_key, spec_xor, lemma_xor_split};
use crate::entry::{Pf8Entry, Pf8EntryView};
use crate::error::{Error, invalid_format, io_error};
use crate::layout::{
    encode_header,
    items_of,
    layout_fits,
    spec_header,
    spec_index_size,
    IndexItem,
};

verus! {

/// The states of a writer.
#[derive(Debug, Clone, Copy, PartialEq, Eq, Structural)]
pub enum WriterState {
    /// Nothing written yet.
    Created,
    /// The header is written, no payload yet.
    HeaderWritten,
    /// At least one payload, or a part of one, is written.
    WritingData,
    /// The archive is complete.
    Finalized,
}

/// The state after `write_header`, if the call is legal.
pub open spec fn after_write_header(s: WriterState) -> Option<WriterState> {
    if s == WriterState::Created {
        Some(WriterState::HeaderWritten)
    } else {
        None
    }
}

/// The state after a payload is written, if the call is legal.
pub open spec fn after_write_data(s: WriterState) -> Option<WriterState> {
    if s == WriterState::HeaderWritten || s == WriterState::WritingData {
        Some(WriterState::WritingData)
    } else {
        None
    }
}

/// The state after `finalize`, if the call is legal.
pub open spec fn after_finalize(s: WriterState) -> Option<WriterState> {
    if s == WriterState::Created {
        None
    } else {
        Some(WriterState::Finalized)
    }
}

/// The header can be written once only, and only first; payloads need the header and
/// are refused once the archive is final; `finalize` needs the header and may be repeated.
pub proof fn lemma_writer_states(s: WriterState)
    ensures
        after_write_data(WriterState::Created) is None,
        after_finalize(WriterState::Created) is None,
        after_write_header(s) matches Some(t) ==> after_write_header(t) is None,
        after_write_data(s) matches Some(t) ==> after_write_header(t) is None
            && after_write_data(t) == Some(t),
        after_finalize(s) matches Some(t) ==> after_finalize(t) == Some(t) && after_write_data(t)
            is None && after_write_header(t) is None,
{
}

/// The key of the archive whose header is made of `items`.
pub open spec fn header_key(items: Seq<IndexItem>) -> Seq<u8> {
    spec_key(spec_header(items), spec_index_size(items) as u32)
}

/// The bytes that are stored for `data`, a part of the payload of `e` that begins
/// `local_offset` bytes into it.
pub open spec fn stored_bytes(e: Pf8EntryView, data: Seq<u8>, key: Seq<u8>, local_offset: int) -> Seq<
    u8,
> {
    if e.encrypted {
        spec_xor(data, key, local_offset)
    } else {
        data
    }
}

/// Mathematical value of a [`Pf8Writer`].
pub ghost struct WriterView {
    pub state: WriterState,
    /// The bytes produced and not yet taken.
    pub pending: Seq<u8>,
    /// The number of bytes produced since the writer was made.
    pub position: u64,
    /// The header, once it is written.
    pub header: Seq<u8>,
    /// The key, once the header is written.
    pub key: Option<Seq<u8>>,
    /// The largest number of bytes that are masked in one step.
    pub buffer_size: usize,
}

/// A writer for PF8 archives.
pub struct Pf8Writer {
    /// Bytes produced and not yet taken by the caller.
    pending: Vec<u8>,
    /// Number of bytes produced so far.
    position: u64,
    /// The header as it was written.
    header_data: Vec<u8>,
    state: WriterState,
    /// The key, derived once when the header is written.
    encryption_key: Option<Vec<u8>>,
    /// Chunk size for payloads that are masked piece by piece.
    buffer_size: usize,
}

impl View for Pf8Writer {
    type V = WriterView;

    closed spec fn view(&self) -> WriterView {
        WriterView {
            state: self.state,
            pending: self.pending@,
            position: self.position,
            header: self.header_data@,
            key: match self.encryption_key {
                Some(k) => Some(k@),
                None => None,
            },
            buffer_size: self.buffer_size,
        }
    }
}

impl Pf8Writer {
    /// What every writer keeps: the chunk size is positive, the key is there from the
    /// header on and is 20 bytes long.
    pub open spec fn wf(&self) -> bool {
        &&& self@.buffer_size > 0
        &&& self@.state == WriterState::Created <==> self@.key is None
        &&& self@.key matches Some(k) ==> k.len() == 20
    }

    /// Makes a writer that masks payloads in chunks of [`BUFFER_SIZE`] bytes.
    pub fn create() -> (w: Self)
        ensures
            w.wf(),
            w@ == (WriterView {
                state: WriterState::Created,
                pending: Seq::empty(),
                position: 0,
                header: Seq::empty(),
                key: None,
                buffer_size: BUFFER_SIZE,
            }),
    {
        Pf8Writer {
            pending: Vec::new(),
            position: 0,
            header_data: Vec::new(),
            state: WriterState::Created,
            encryption_key: None,
            buffer_size: BUFFER_SIZE,
        }
    }

    /// Makes a writer that masks payloads in chunks of `buffer_size` bytes.
    pub fn with_buffer_size(buffer_size: usize) -> (w: Self)
        requires
            buffer_size > 0,
        ensures
            w.wf(),
            w@ == (WriterView {
                state: WriterState::Created,
                pending: Seq::empty(),
                position: 0,
                header: Seq::empty(),
                key: None,
                buffer_size,
            }),
    {
        Pf8Writer {
            pending: Vec::new(),
            position: 0,
            header_data: Vec::new(),
            state: WriterState::Created,
            encryption_key: None,
            buffer_size,
        }
    }

    /// Writes the header and index for `entries`, in their order, and derives the key
    /// from them. Legal only as the first call.
    pub fn write_header(&mut self, entries: &[Pf8Entry]) -> (res: Result<(), Error>)
        requires
            old(self).wf(),
        ensures
            final(self).wf(),
            match res {
                Ok(()) => {
                    &&& after_write_header(old(self)@.state) == Some(final(self)@.state)
                    &&& layout_fits(items_of(entries@))
                    &&& final(self)@.pending == old(self)@.pending + spec_header(
                        items_of(entries@),
                    )
                    &&& final(self)@.position == spec_header(items_of(entries@)).len()
                    &&& final(self)@.header == spec_header(items_of(entries@))
                    &&& final(self)@.key == Some(header_key(items_of(entries@)))
                    &&& final(self)@.buffer_size == old(self)@.buffer_size
                },
                Err(Error::InvalidFormat(m)) => {
                    &&& final(self)@ == old(self)@
                    &&& after_write_header(old(self)@.state) is None || !layout_fits(
                        items_of(entries@),
                    )
                    &&& m@ == (if after_write_header(old(self)@.state) is None {
                        "Header already written"@
                    } else {
                        "Archive too large"@
                    })
                },
                Err(_) => false,
            },
    {
        if self.state != WriterState::Created {
            return Err(invalid_format("Header already written"));
        }
        let header = match encode_header(entries) {
            Some(h) => h,
            None => {
                return Err(invalid_format("Archive too large"));
            },
        };
        let index_size: u32 = (header.len() - 7) as u32;
        let key = generate_key(header.as_slice(), index_size);
        self.pending.extend_from_slice(header.as_slice());
        self.position = header.len() as u64;
        self.header_data = header;
        self.encryption_key = Some(key);
        self.state = WriterState::HeaderWritten;
        Ok(())
    }

    /// The largest number of bytes that are masked in one step.
    pub fn buffer_size(&self) -> (n: usize)
        requires
            self.wf(),
        ensures
            n == self@.buffer_size,
            n > 0,
    {
        self.buffer_size
    }

    /// The state of the writer.
    pub fn state(&self) -> (s: WriterState)
        ensures
            s == self@.state,
    {
        self.state
    }

    /// The number of bytes produced so far: the size of the archive up to now.
    pub fn size(&self) -> (n: u64)
        ensures
            n == self@.position,
    {
        self.position
    }

    /// Whether the archive is complete.
    pub fn is_finalized(&self) -> (b: bool)
        ensures
            b == (self@.state == WriterState::Finalized),
    {
        self.state == WriterState::Finalized
    }

    /// Completes the archive. Legal once the header is written, and again after that.
    pub fn finalize(&mut self) -> (res: Result<(), Error>)
        requires
            old(self).wf(),
        ensures
            final(self).wf(),
            match res {
                Ok(()) => {
                    &&& after_finalize(old(self)@.state) == Some(final(self)@.state)
                    &&& final(self)@ == (WriterView {
                        state: WriterState::Finalized,
                        ..old(self)@
                    })
                },
                Err(Error::InvalidFormat(m)) => {
                    &&& after_finalize(old(self)@.state) is None
                    &&& final(self)@ == old(self)@
                    &&& m@ == "No data written"@
                },
                Err(_) => false,
            },
    {
        if self.state == WriterState::Finalized {
            return Ok(());
        }
        if self.state == WriterState::Created {
            return Err(invalid_format("No data written"));
        }
        self.state = WriterState::Finalized;
        Ok(())
    }

    /// Hands over the bytes produced since the last call, for the caller to store.
    pub fn take_output(&mut self) -> (bytes: Vec<u8>)
        requires
            old(self).wf(),
        ensures
            final(self).wf(),
            bytes@ == old(self)@.pending,
            final(self)@ == (WriterView { pending: Seq::empty(), ..old(self)@ }),
    {
        let mut bytes: Vec<u8> = Vec::new();
        core::mem::swap(&mut self.pending, &mut bytes);
        bytes
    }

    /// Writes one part of the payload of `entry`: `chunk`, which begins `local_offset`
    /// bytes into the payload. The part is masked if the entry is encrypted, at the key
    /// position that `local_offset` gives. Legal once the header is written and before
    /// the archive is final.
    pub fn write_file_chunk(&mut self, entry: &Pf8Entry, local_offset: u64, chunk: &[u8]) -> (res:
        Result<(), Error>)
        requires
            old(self).wf(),
        ensures
            final(self).wf(),
            match res {
                Ok(()) => {
                    &&& after_write_data(old(self)@.state) == Some(final(self)@.state)
                    &&& chunk_accepted(old(self)@, entry@, local_offset, chunk@.len())
                    &&& final(self)@ == (WriterView {
                        state: WriterState::WritingData,
                        pending: old(self)@.pending + stored_bytes(
                            entry@,
                            chunk@,
                            old(self)@.key->0,
                            local_offset as int,
                        ),
                        position: (old(self)@.position + chunk@.len()) as u64,
                        ..old(self)@
                    })
                },
                Err(Error::InvalidFormat(m)) => {
                    &&& final(self)@ == old(self)@
                    &&& !chunk_accepted(old(self)@, entry@, local_offset, chunk@.len())
                    &&& m@ == refusal(old(self)@, entry@, local_offset, chunk@.len())
                },
                Err(_) => false,
            },
    {
        if self.state == WriterState::Created {
            return Err(invalid_format("Header must be written first"));
        }
        if self.state == WriterState::Finalized {
            return Err(invalid_format("Writer is finalized"));
        }
        let size: u64 = entry.size() as u64;
        if local_offset > size || chunk.len() as u64 > size - local_offset {
            return Err(invalid_format("Data size mismatch"));
        }
        if chunk.len() as u64 > u64::MAX - self.position {
            return Err(invalid_format("Archive too large"));
        }
        if entry.is_encrypted() {
            match &self.encryption_key {
                Some(key) => {
                    let mut masked = slice_to_vec(chunk);
                    encrypt(&mut masked, key.as_slice(), local_offset as usize);
                    self.pending.extend_from_slice(masked.as_slice());
                },
                None => {
                    // The key is there from the header on.
                    assert(false);
                    self.pending.extend_from_slice(chunk);
                },
            }
        } else {
            self.pending.extend_from_slice(chunk);
        }
        assert(self@.pending == old(self)@.pending + stored_bytes(
            entry@,
            chunk@,
            old(self)@.key->0,
            local_offset as int,
        ));
        self.position = self.position + chunk.len() as u64;
        self.state = WriterState::WritingData;
        Ok(())
    }

    /// Writes the payload of `entry` from memory, in one pass. `data` must be as long as
    /// the entry says.
    pub fn write_file_data_direct(&mut self, entry: &Pf8Entry, data: &[u8]) -> (res: Result<
        (),
        Error,
    >)
        requires
            old(self).wf(),
        ensures
            final(self).wf(),
            match res {
                Ok(()) => {
                    &&& after_write_data(old(self)@.state) == Some(final(self)@.state)
                    &&& data@.len() == entry@.size
                    &&& final(self)@ == (WriterView {
                        state: WriterState::WritingData,
                        pending: old(self)@.pending + stored_bytes(
                            entry@,
                            data@,
                            old(self)@.key->0,
                            0,
                        ),
                        position: (old(self)@.position + data@.len()) as u64,
                        ..old(self)@
                    })
                },
                Err(Error::InvalidFormat(m)) => {
                    &&& final(self)@ == old(self)@
                    &&& data@.len() != entry@.size || !chunk_accepted(
                        old(self)@,
                        entry@,
                        0,
                        data@.len(),
                    )
                    &&& m@ == (if after_write_data(old(self)@.state) is Some && data@.len()
                        != entry@.size {
                        "Data size mismatch"@
                    } else {
                        refusal(old(self)@, entry@, 0, data@.len())
                    })
                },
                Err(_) => false,
            },
    {
        if self.state != WriterState::Created && self.state != WriterState::Finalized
            && data.len() as u64 != entry.size() as u64 {
            return Err(invalid_format("Data size mismatch"));
        }
        self.write_file_chunk(entry, 0, data)
    }

    /// Writes the payload of `entry` from `source`, the content of the file it is made
    /// from, piece by piece: no more than the chunk size of the writer is masked at a
    /// time, each piece at the key position that the pieces before it give. The entry's
    /// size decides how much is written; a source that is shorter is an error.
    pub fn write_file_data(&mut self, entry: &Pf8Entry, source: &[u8]) -> (res: Result<(), Error>)
        requires
            old(self).wf(),
        ensures
            final(self).wf(),
            match res {
                Ok(()) => {
                    &&& after_write_data(old(self)@.state) == Some(final(self)@.state)
                    &&& source@.len() >= entry@.size
                    &&& final(self)@ == (WriterView {
                        state: WriterState::WritingData,
                        pending: old(self)@.pending + stored_bytes(
                            entry@,
                            source@.take(entry@.size as int),
                            old(self)@.key->0,
                            0,
                        ),
                        position: (old(self)@.position + entry@.size) as u64,
                        ..old(self)@
                    })
                },
                Err(Error::InvalidFormat(m)) => {
                    &&& final(self)@ == old(self)@
                    &&& !chunk_accepted(old(self)@, entry@, 0, entry@.size as nat)
                    &&& m@ == refusal(old(self)@, entry@, 0, entry@.size as nat)
                },
                Err(Error::Io(m)) => {
                    &&& final(self)@ == old(self)@
                    &&& chunk_accepted(old(self)@, entry@, 0, entry@.size as nat)
                    &&& source@.len() < entry@.size
                    &&& m@ == "failed to fill whole buffer"@
                },
                Err(_) => false,
            },
    {
        if self.state == WriterState::Created {
            return Err(invalid_format("Header must be written first"));
        }
        if self.state == WriterState::Finalized {
            return Err(invalid_format("Writer is finalized"));
        }
        let size: usize = entry.size() as usize;
        if size as u64 > u64::MAX - self.position {
            return Err(invalid_format("Archive too large"));
        }
        if source.len() < size {
            return Err(io_error("failed to fill whole buffer"));
        }
        if size <= self.buffer_size {
            return self.write_file_chunk(entry, 0, &source[0..size]);
        }
        let ghost key = old(self)@.key->0;
        let ghost wanted = source@.take(size as int);
        let mut written: usize = 0;
        while written < size
            invariant
                self.wf(),
                written <= size,
                size == entry@.size,
                size <= source@.len(),
                wanted == source@.take(size as int),
                old(self)@.state == WriterState::HeaderWritten || old(self)@.state
                    == WriterState::WritingData,
                old(self)@.key == Some(key),
                old(self)@.position + size <= u64::MAX,
                written > 0 ==> self@.state == WriterState::WritingData,
                written == 0 ==> self@.state == old(self)@.state,
                self@ == (WriterView {
                    state: self@.state,
                    pending: old(self)@.pending + stored_bytes(
                        entry@,
                        wanted.take(written as int),
                        key,
                        0,
                    ),
                    position: (old(self)@.position + written) as u64,
                    ..old(self)@
                }),
            decreases size - written,
        {
            let remaining: usize = size - written;
            let n: usize = if remaining < self.buffer_size {
                remaining
            } else {
                self.buffer_size
            };
            let chunk = &source[written..written + n];
            let ghost before = self@;
            proof {
                assert(wanted.take(written + n) =~= wanted.take(written as int) + chunk@);
                lemma_xor_split(wanted.take(written as int), chunk@, key, 0);
            }
            match self.write_file_chunk(entry, written as u64, chunk) {
                Ok(()) => {},
                Err(e) => {
                    return Err(e);
                },
            }
            assert(self@.pending =~= old(self)@.pending + stored_bytes(
                entry@,
                wanted.take(written + n),
                key,
                0,
            ));
            written = written + n;
        }
        proof {
            assert(wanted.take(size as int) =~= wanted);
        }
        Ok(())
    }
}

/// Whether a writer in the given state takes `len` more bytes of the payload of `e` at
/// `local_offset`: the header must be written and the archive not final, the bytes must
/// lie inside the payload, and the size of the archive must stay below 2^64.
pub open spec fn chunk_accepted(w: WriterView, e: Pf8EntryView, local_offset: u64, len: nat) -> bool {
    &&& after_write_data(w.state) is Some
    &&& local_offset + len <= e.size
    &&& w.position + len <= u64::MAX
}

/// The detail of the error with which the bytes are refused.
pub open spec fn refusal(w: WriterView, e: Pf8EntryView, local_offset: u64, len: nat) -> Seq<char> {
    if w.state == WriterState::Created {
        "Header must be written first"@
    } else if w.state == WriterState::Finalized {
        "Writer is finalized"@
    } else if local_offset + len > e.size {
        "Data size mismatch"@
    } else {
        "Archive too large"@
    }
}

} // verus!
