use diff_tree::fingerprint::count_blocks;
use diff_tree::hash::block_hash;

#[test]
fn empty_chunk_list_yields_empty_mapping() {
    let chunks: Vec<Vec<u8>> = Vec::new();
    let counts = count_blocks(&chunks, 64);
    assert_eq!(counts.len(), 0);
}

#[test]
fn empty_chunks_yield_empty_mapping() {
    let chunks: Vec<Vec<u8>> = vec![Vec::new(), Vec::new()];
    let counts = count_blocks(&chunks, 64);
    assert_eq!(counts.len(), 0);
}

#[test]
fn foo_barbaz_yields_two_blocks() {
    let chunks: Vec<Vec<u8>> = vec![b"foo\nbarbaz".to_vec()];
    let counts = count_blocks(&chunks, 4096);
    assert_eq!(counts.len(), 2);
    assert_eq!(counts.get(block_hash(&b"foo\n".to_vec())), 4);
    assert_eq!(counts.get(block_hash(&b"barbaz".to_vec())), 6);
}

#[test]
fn chunk_boundaries_do_not_matter() {
    let one: Vec<Vec<u8>> = vec![b"foo\nbarbaz".to_vec()];
    let many: Vec<Vec<u8>> = vec![b"foo".to_vec(), b"\nbar".to_vec(), Vec::new(), b"baz".to_vec()];
    let c1 = count_blocks(&one, 4096);
    let c2 = count_blocks(&many, 4096);
    assert_eq!(c1.len(), c2.len());
    let h1 = block_hash(&b"foo\n".to_vec());
    let h2 = block_hash(&b"barbaz".to_vec());
    assert_eq!(c1.get(h1), c2.get(h1));
    assert_eq!(c1.get(h2), c2.get(h2));
}

#[test]
fn values_sum_to_total_length() {
    let chunks: Vec<Vec<u8>> = vec![b"foo\nbarbaz".to_vec()];
    let counts = count_blocks(&chunks, 4096);
    let total = counts.get(block_hash(&b"foo\n".to_vec()))
        + counts.get(block_hash(&b"barbaz".to_vec()));
    assert_eq!(total, 10);
}

#[test]
fn block_size_limit_splits_blocks() {
    let chunks: Vec<Vec<u8>> = vec![b"abcdef".to_vec()];
    let counts = count_blocks(&chunks, 2);
    assert_eq!(counts.len(), 3);
    assert_eq!(counts.get(block_hash(&b"ab".to_vec())), 2);
    assert_eq!(counts.get(block_hash(&b"cd".to_vec())), 2);
    assert_eq!(counts.get(block_hash(&b"ef".to_vec())), 2);
}

#[test]
fn repeated_blocks_accumulate_length() {
    let chunks: Vec<Vec<u8>> = vec![b"aaaa".to_vec()];
    let counts = count_blocks(&chunks, 2);
    assert_eq!(counts.len(), 1);
    assert_eq!(counts.get(block_hash(&b"aa".to_vec())), 4);
}

#[test]
fn newline_at_size_limit_makes_one_block() {
    let chunks: Vec<Vec<u8>> = vec![b"ab\n".to_vec()];
    let counts = count_blocks(&chunks, 3);
    assert_eq!(counts.len(), 1);
    assert_eq!(counts.get(block_hash(&b"ab\n".to_vec())), 3);
}

#[test]
fn trailing_partial_block_is_counted() {
    let chunks: Vec<Vec<u8>> = vec![b"xy".to_vec()];
    let counts = count_blocks(&chunks, 64);
    assert_eq!(counts.len(), 1);
    assert_eq!(counts.get(block_hash(&b"xy".to_vec())), 2);
}

#[test]
fn newlines_split_into_single_byte_blocks() {
    let chunks: Vec<Vec<u8>> = vec![b"\n\n".to_vec()];
    let counts = count_blocks(&chunks, 64);
    assert_eq!(counts.len(), 1);
    assert_eq!(counts.get(block_hash(&b"\n".to_vec())), 2);
}

#[test]
fn absent_key_reports_zero() {
    let chunks: Vec<Vec<u8>> = vec![b"foo\n".to_vec()];
    let counts = count_blocks(&chunks, 64);
    assert_eq!(counts.get(block_hash(&b"bar".to_vec())), 0);
}

#[test]
fn block_hash_matches_reference_vectors() {
    assert_eq!(block_hash(&Vec::new()), 0xcbf29ce484222325);
    assert_eq!(block_hash(&b"a".to_vec()), 0xaf63dc4c8601ec8c);
    assert_eq!(block_hash(&b"foobar".to_vec()), 0x85944171f73967e8);
}

#[test]
fn block_hash_depends_on_content() {
    assert_ne!(
        block_hash(&b"foo\n".to_vec()),
        block_hash(&b"barbaz".to_vec()),
    );
    assert_eq!(
        block_hash(&b"foo\n".to_vec()),
        block_hash(&b"foo\n".to_vec()),
    );
}
