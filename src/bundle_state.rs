use vstd::prelude::*;

verus! {

/// Where writing a pack and its index into a directory stands: the work in flight.
#[derive(Debug, Clone, Copy, PartialEq, Eq, Structural)]
pub enum WriteState {
    /// Nothing done yet.
    Init,
    /// The temporary files for pack and index are being created.
    CreatingTempFiles,
    /// The input is being read into the pack's temporary file.
    StreamingEntries,
    /// The index is being built.
    Indexing,
    /// The `.keep` file is being written.
    WritingKeep,
    /// The pack is being moved to its final name.
    PersistingPack,
    /// The index is being moved to its final name.
    PersistingIndex,
    Done,
    Failed,
}

/// How the work in flight went.
#[derive(Debug, Clone, Copy, PartialEq, Eq, Structural)]
pub enum WriteEvent {
    Succeeded,
    /// The interrupt flag was found set.
    Interrupted,
    Failed,
}

/// What to do next.
#[derive(Debug, Clone, Copy, PartialEq, Eq, Structural)]
pub enum WriteAction {
    /// Create the temporary files for pack and index in the target directory, if there is one.
    CreateTempFiles,
    /// Read the whole input, checking the interrupt flag per read.
    ReadInput,
    /// Build the index and fill the temporary files.
    BuildIndex,
    /// Write the empty `.keep` file under the pack's final name.
    WriteKeep,
    /// Move the pack's temporary file to its final name.
    PersistPack,
    /// Move the index's temporary file to its final name.
    PersistIndex,
    /// Remove the temporary files and the `.keep` file, and report the failure.
    Abort,
    /// Remove the index's temporary file, keep the persisted pack, and report its path.
    AbortKeepingPack,
    /// Report the outcome.
    Finish,
}

/// The next state and action, given the work in flight, how it went, and whether there is a
/// target directory (without one, the pack is only checked and nothing is persisted).
pub open spec fn write_step_spec(s: WriteState, ev: WriteEvent, has_directory: bool) -> (WriteState, WriteAction) {
    match s {
        WriteState::Init => (WriteState::CreatingTempFiles, WriteAction::CreateTempFiles),
        WriteState::Done => (WriteState::Done, WriteAction::Finish),
        WriteState::Failed => (WriteState::Failed, WriteAction::Abort),
        _ => if ev != WriteEvent::Succeeded {
            if s == WriteState::PersistingIndex {
                (WriteState::Failed, WriteAction::AbortKeepingPack)
            } else {
                (WriteState::Failed, WriteAction::Abort)
            }
        } else {
            match s {
                WriteState::CreatingTempFiles => (WriteState::StreamingEntries, WriteAction::ReadInput),
                WriteState::StreamingEntries => (WriteState::Indexing, WriteAction::BuildIndex),
                WriteState::Indexing => if has_directory {
                    (WriteState::WritingKeep, WriteAction::WriteKeep)
                } else {
                    (WriteState::Done, WriteAction::Finish)
                },
                WriteState::WritingKeep => (WriteState::PersistingPack, WriteAction::PersistPack),
                WriteState::PersistingPack => (WriteState::PersistingIndex, WriteAction::PersistIndex),
                _ => (WriteState::Done, WriteAction::Finish),
            }
        },
    }
}

/// One step of writing a bundle: the state that follows and the action to perform. The caller
/// performs the action and reports how it went as the next event.
pub fn write_step(s: WriteState, ev: WriteEvent, has_directory: bool) -> (r: (WriteState, WriteAction))
    ensures
        r == write_step_spec(s, ev, has_directory),
{
    match s {
        WriteState::Init => (WriteState::CreatingTempFiles, WriteAction::CreateTempFiles),
        WriteState::Done => (WriteState::Done, WriteAction::Finish),
        WriteState::Failed => (WriteState::Failed, WriteAction::Abort),
        _ => if ev != WriteEvent::Succeeded {
            if s == WriteState::PersistingIndex {
                (WriteState::Failed, WriteAction::AbortKeepingPack)
            } else {
                (WriteState::Failed, WriteAction::Abort)
            }
        } else {
            match s {
                WriteState::CreatingTempFiles => (WriteState::StreamingEntries, WriteAction::ReadInput),
                WriteState::StreamingEntries => (WriteState::Indexing, WriteAction::BuildIndex),
                WriteState::Indexing => if has_directory {
                    (WriteState::WritingKeep, WriteAction::WriteKeep)
                } else {
                    (WriteState::Done, WriteAction::Finish)
                },
                WriteState::WritingKeep => (WriteState::PersistingPack, WriteAction::PersistPack),
                WriteState::PersistingPack => (WriteState::PersistingIndex, WriteAction::PersistIndex),
                _ => (WriteState::Done, WriteAction::Finish),
            }
        },
    }
}

/// An action that puts a file under its final name.
pub open spec fn places_file(a: WriteAction) -> bool {
    a == WriteAction::WriteKeep || a == WriteAction::PersistPack || a == WriteAction::PersistIndex
}

/// The work that comes before any file gets its final name.
pub open spec fn before_placing(s: WriteState) -> bool {
    s == WriteState::CreatingTempFiles || s == WriteState::StreamingEntries || s == WriteState::Indexing
}

/// An interrupt seen before any file got its final name ends the write with every temporary file
/// removed, and once failed, no file is ever placed.
pub proof fn interrupt_before_placing_leaves_nothing(s: WriteState, has_directory: bool)
    requires
        before_placing(s),
    ensures
        write_step_spec(s, WriteEvent::Interrupted, has_directory) == (WriteState::Failed, WriteAction::Abort),
        forall|ev: WriteEvent, d: bool| !places_file(#[trigger] write_step_spec(WriteState::Failed, ev, d).1),
        forall|ev: WriteEvent, d: bool| #[trigger] write_step_spec(WriteState::Failed, ev, d).0 == WriteState::Failed,
{
}

/// The `.keep` file is written before the pack is placed, and the pack before the index: each
/// placing action is issued only after the work before it succeeded.
pub proof fn placing_keeps_its_order(s: WriteState, ev: WriteEvent, has_directory: bool)
    ensures
        write_step_spec(s, ev, has_directory).1 == WriteAction::WriteKeep ==> s == WriteState::Indexing && ev
            == WriteEvent::Succeeded && has_directory,
        write_step_spec(s, ev, has_directory).1 == WriteAction::PersistPack ==> s == WriteState::WritingKeep && ev
            == WriteEvent::Succeeded,
        write_step_spec(s, ev, has_directory).1 == WriteAction::PersistIndex ==> s == WriteState::PersistingPack
            && ev == WriteEvent::Succeeded,
{
}

/// Without a target directory nothing is ever placed.
pub proof fn without_directory_nothing_is_placed(s: WriteState, ev: WriteEvent)
    requires
        s == WriteState::Init || before_placing(s) || s == WriteState::Done || s == WriteState::Failed,
    ensures
        !places_file(write_step_spec(s, ev, false).1),
        ({
            let n = write_step_spec(s, ev, false).0;
            n == WriteState::Init || before_placing(n) || n == WriteState::Done || n == WriteState::Failed
        }),
{
}

/// The lower-case hexadecimal digit of a value below 16.
pub open spec fn hex_digit(n: u8) -> u8 {
    if n < 10 { (48 + n) as u8 } else { (87 + n) as u8 }
}

/// Two lower-case hexadecimal digits per byte.
pub open spec fn hex_of(b: Seq<u8>) -> Seq<u8>
    decreases b.len(),
{
    if b.len() == 0 {
        seq![]
    } else {
        hex_of(b.drop_last()) + seq![hex_digit(b.last() / 16), hex_digit(b.last() % 16)]
    }
}

/// `pack-`
pub const PACK_PREFIX: [u8; 5] = [112, 97, 99, 107, 45];

/// `.pack`
pub const PACK_SUFFIX: [u8; 5] = [46, 112, 97, 99, 107];

/// `.idx`
pub const INDEX_SUFFIX: [u8; 4] = [46, 105, 100, 120];

/// `.keep`
pub const KEEP_SUFFIX: [u8; 5] = [46, 107, 101, 101, 112];

/// The content-addressed name of a file of the bundle: `pack-<hex of the pack hash>` and `suffix`.
pub open spec fn bundle_file_name(data_hash: Seq<u8>, suffix: Seq<u8>) -> Seq<u8> {
    PACK_PREFIX@ + hex_of(data_hash) + suffix
}

/// The names of the pack, the index and the `.keep` file for the pack with trailing hash `data_hash`.
pub fn bundle_file_names(data_hash: &[u8; 20]) -> (r: (Vec<u8>, Vec<u8>, Vec<u8>))
    ensures
        r.0@ == bundle_file_name(data_hash@, PACK_SUFFIX@),
        r.1@ == bundle_file_name(data_hash@, INDEX_SUFFIX@),
        r.2@ == bundle_file_name(data_hash@, KEEP_SUFFIX@),
{
    let mut hex: Vec<u8> = Vec::new();
    let mut i: usize = 0;
    while i < 20
        invariant
            i <= 20,
            hex@ == hex_of(data_hash@.subrange(0, i as int)),
        decreases 20 - i,
    {
        let b = data_hash[i];
        let hi = b / 16;
        let lo = b % 16;
        hex.push(if hi < 10 { 48 + hi } else { 87 + hi });
        hex.push(if lo < 10 { 48 + lo } else { 87 + lo });
        assert(data_hash@.subrange(0, i as int + 1).drop_last() =~= data_hash@.subrange(0, i as int));
        i += 1;
        assert(hex@ =~= hex_of(data_hash@.subrange(0, i as int)));
    }
    assert(data_hash@.subrange(0, 20) =~= data_hash@);
    let mut pack: Vec<u8> = Vec::new();
    crate::bytes::push_all(&mut pack, &PACK_PREFIX);
    crate::bytes::push_all(&mut pack, hex.as_slice());
    let mut index = pack.clone();
    let mut keep = pack.clone();
    crate::bytes::push_all(&mut pack, &PACK_SUFFIX);
    crate::bytes::push_all(&mut index, &INDEX_SUFFIX);
    crate::bytes::push_all(&mut keep, &KEEP_SUFFIX);
    (pack, index, keep)
}

} // verus!
