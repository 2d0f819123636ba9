//! Frequent-itemset mining with the Apriori family: level-wise candidate
//! generation over an integer-keyed prefix tree, AprioriTID's transformed
//! database, the AprioriHybrid switch between them, and the counting and
//! summing steps of Count Distribution.
pub mod itemset;
pub mod trie;
pub mod storage;
pub mod array2d;
pub mod transaction_set;
pub mod apriori;
pub mod tid;
pub mod hybrid;
pub mod distribution;
pub mod dat;
