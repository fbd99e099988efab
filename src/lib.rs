//! Conversion of paired-end alignment records into two mate-aligned FASTQ
//! streams, with an order-independent digest over FASTQ pairs.
pub mod record;
pub mod pairer;
pub mod shuffler;
pub mod fastq;
pub mod block_writer;
pub mod options;
pub mod formatter;
pub mod extractor;
pub mod checksum;
pub mod tally;
