use flate2::bufread::GzEncoder;
use flate2::Compression;
use std::io::Read;
use std::sync::mpsc::SyncSender;
use vstd::prelude::*;

verus! {

#[verifier::external_type_specification]
#[verifier::external_body]
#[verifier::reject_recursive_types(T)]
pub struct ExSyncSender<T>(SyncSender<T>);

/// The gzip member that flate2 writes for `data` at compression `level`.
pub uninterp spec fn gzip_member(data: Seq<u8>, level: u32) -> Seq<u8>;

/// Relies on flate2's `bufread::GzEncoder`: reading it to the end gives one
/// gzip member holding `data`, compressed at `level`; the header holds no
/// time stamp, so the bytes depend on the arguments alone.
#[verifier::external_body]
fn gzip(data: &[u8], level: u32) -> (r: Vec<u8>)
    requires
        level <= 9,
    ensures
        r@ == gzip_member(data@, level),
{
    let mut out = Vec::with_capacity(data.len());
    let mut encoder = GzEncoder::new(data, Compression::new(level));
    let _read = encoder.read_to_end(&mut out);
    out
}

/// Relies on std's `SyncSender::send`: it waits while the channel is full and
/// fails only when the receiving side is gone.
#[verifier::external_body]
fn send_pair(tx: &SyncSender<(DataBlock, DataBlock)>, pair: (DataBlock, DataBlock)) -> (sent: bool) {
    tx.send(pair).is_ok()
}

/// Bytes bound for one of the two output files, tagged with the side (1 or
/// 2), the producer and the producer's block number.
pub struct DataBlock {
    pub side: u8,
    pub source_id: String,
    pub block_number: usize,
    pub data: Vec<u8>,
}

/// How a block's bytes are stored: gzip-compressed at the level, or as they are.
pub open spec fn encoded(compression: Option<u32>, bytes: Seq<u8>) -> Seq<u8> {
    match compression {
        Some(level) => gzip_member(bytes, level),
        None => bytes,
    }
}

pub open spec fn valid_compression(compression: Option<u32>) -> bool {
    match compression {
        Some(level) => level <= 9,
        None => true,
    }
}

/// Why a block pair could not be handed to the writer.
#[derive(Debug, PartialEq, Eq, Structural)]
pub enum BlockWriteError {
    /// The writer's receiving side has gone.
    WriterClosed,
}

/// Encodes one side of a block pair.
pub fn encode_block(compression: Option<u32>, bytes: &[u8]) -> (r: Vec<u8>)
    requires
        valid_compression(compression),
    ensures
        r@ == encoded(compression, bytes@),
{
    match compression {
        Some(level) => gzip(bytes, level),
        None => {
            let mut copy: Vec<u8> = Vec::new();
            copy.extend_from_slice(bytes);
            proof {
                assert(copy@ =~= bytes@);
            }
            copy
        },
    }
}

/// The two blocks of one submission: each side holds its own bytes, encoded.
pub fn make_block_pair(compression: Option<u32>, id: &String, block_number: usize, blocks: (&[u8], &[u8])) -> (r: (DataBlock, DataBlock))
    requires
        valid_compression(compression),
    ensures
        r.0.side == 1 && r.1.side == 2,
        r.0.source_id@ == id@ && r.1.source_id@ == id@,
        r.0.block_number == block_number && r.1.block_number == block_number,
        r.0.data@ == encoded(compression, blocks.0@),
        r.1.data@ == encoded(compression, blocks.1@),
{
    let data_0 = encode_block(compression, blocks.0);
    let data_1 = encode_block(compression, blocks.1);
    (
        DataBlock { side: 1, source_id: id.clone(), block_number, data: data_0 },
        DataBlock { side: 2, source_id: id.clone(), block_number, data: data_1 },
    )
}

/// The bytes of one side over a log of submitted block pairs, in order.
pub open spec fn submitted_side(log: Seq<(Seq<u8>, Seq<u8>)>, side: int) -> Seq<u8>
    decreases log.len(),
{
    if log.len() == 0 {
        Seq::empty()
    } else {
        submitted_side(log.drop_last(), side) + if side == 0 {
            log.last().0
        } else {
            log.last().1
        }
    }
}

/// A producer's handle on the pair writer: each block pair goes down one
/// channel as a unit, so the two files stay mate-aligned.
pub struct LocalBlockPairWriter {
    compression: Option<u32>,
    id: String,
    block_num: usize,
    writers: SyncSender<(DataBlock, DataBlock)>,
    submitted: Ghost<Seq<(Seq<u8>, Seq<u8>)>>,
}

impl LocalBlockPairWriter {
    /// The block pairs handed over so far, before encoding.
    pub closed spec fn submitted(&self) -> Seq<(Seq<u8>, Seq<u8>)> {
        self.submitted@
    }

    pub closed spec fn compression(&self) -> Option<u32> {
        self.compression
    }

    pub closed spec fn wf(&self) -> bool {
        valid_compression(self.compression)
    }

    /// A handle tagged `id` that sends on `writers`, compressing at the level
    /// where one is given.
    pub fn new(compression: Option<u32>, id: &str, writers: SyncSender<(DataBlock, DataBlock)>) -> (w: LocalBlockPairWriter)
        requires
            valid_compression(compression),
        ensures
            w.wf(),
            w.compression() == compression,
            w.submitted() == Seq::<(Seq<u8>, Seq<u8>)>::empty(),
    {
        LocalBlockPairWriter {
            compression,
            id: id.to_string(),
            block_num: 0,
            writers,
            submitted: Ghost(Seq::empty()),
        }
    }

    /// Encodes both halves and sends them as one pair.
    pub fn write(&mut self, blocks: (&[u8], &[u8])) -> (r: Result<(), BlockWriteError>)
        requires
            old(self).wf(),
        ensures
            final(self).wf(),
            final(self).compression() == old(self).compression(),
            r is Ok ==> final(self).submitted() == old(self).submitted().push((blocks.0@, blocks.1@)),
            r is Err ==> final(self).submitted() == old(self).submitted(),
    {
        if self.block_num < usize::MAX {
            self.block_num = self.block_num + 1;
        }
        let pair = make_block_pair(self.compression, &self.id, self.block_num, blocks);
        if send_pair(&self.writers, pair) {
            proof {
                self.submitted = Ghost(self.submitted@.push((blocks.0@, blocks.1@)));
            }
            Ok(())
        } else {
            Err(BlockWriteError::WriterClosed)
        }
    }
}

} // verus!
