use nexus_core::bloom::{search_substring, BlockBloom};
use nexus_core::encoding::ascii_icontains;
use nexus_core::{Dataset, ParserSchema};

fn dataset(bytes: &[u8]) -> Dataset {
    Dataset::open(bytes.to_vec(), Some(ParserSchema::csv())).unwrap()
}

#[test]
fn bloom_matches_bruteforce() {
    let mut data = String::from("n,msg\n");
    for i in 0..20_000u32 {
        let msg = if i % 5000 == 0 { "rare_token_xyz" } else { "ordinary line" };
        data.push_str(&format!("{i},{msg}\n"));
    }
    let ds = dataset(data.as_bytes());
    let bloom = BlockBloom::build(&ds);

    let needle = b"rare_token_xyz";
    let via_bloom = search_substring(&ds, &bloom, None, needle);

    let brute: Vec<u32> = (0..ds.row_count() as u32)
        .filter(|&r| ascii_icontains(ds.line_bytes(r as usize).unwrap(), needle))
        .collect();

    assert_eq!(via_bloom, brute);
    assert_eq!(via_bloom.len(), 4);
}

#[test]
fn no_false_negatives_on_common_token() {
    let ds = dataset(b"n,msg\n1,alpha\n2,beta\n3,alpha\n");
    let bloom = BlockBloom::build(&ds);
    assert_eq!(search_substring(&ds, &bloom, None, b"alpha"), vec![0, 2]);
    assert_eq!(search_substring(&ds, &bloom, None, b"beta"), vec![1]);
    assert!(search_substring(&ds, &bloom, None, b"missing").is_empty());
}

#[test]
fn scoped_bloom_matches_only_its_column() {
    let ds = dataset(b"host,msg\nweb01,ok\nweb02,web01 referenced\nweb01,done\n");
    let bloom = BlockBloom::build(&ds);
    assert_eq!(search_substring(&ds, &bloom, None, b"web01"), vec![0, 1, 2]);
    assert_eq!(search_substring(&ds, &bloom, Some(0), b"web01"), vec![0, 2]);
}

#[test]
fn bloom_block_layout() {
    let mut data = String::from("n\n");
    for i in 0..5000u32 {
        data.push_str(&format!("{i}\n"));
    }
    let ds = dataset(data.as_bytes());
    let bloom = BlockBloom::build(&ds);
    assert_eq!(bloom.block_size(), 4096);
    assert_eq!(bloom.num_blocks(), 2);
    // Short needles and blocks out of range carry no signal.
    assert!(bloom.block_might_contain(0, b"zz"));
    assert!(bloom.block_might_contain(7, b"zzzz"));
    // "4999" only occurs in the second block.
    assert!(bloom.block_might_contain(1, b"4999"));
}

#[test]
fn bloom_miss_skips_block_without_needle() {
    let ds = dataset(b"n,msg\n1,alpha\n2,beta\n");
    let bloom = BlockBloom::build(&ds);
    // A needle whose trigrams are absent is refused for the only block.
    assert!(!bloom.block_might_contain(0, b"qqqqqqqq"));
    assert!(bloom.block_might_contain(0, b"alp"));
    assert!(bloom.block_might_contain(0, b"ALP".to_ascii_lowercase().as_slice()));
}

#[test]
fn bloom_empty_dataset_has_no_blocks() {
    let ds = dataset(b"n,msg\n");
    let bloom = BlockBloom::build(&ds);
    assert_eq!(bloom.num_blocks(), 0);
    assert!(search_substring(&ds, &bloom, None, b"abc").is_empty());
}

#[test]
fn dataset_search_uses_the_same_results() {
    let mut data = String::from("n,msg\n");
    for i in 0..9000u32 {
        let msg = if i % 3000 == 7 { "Needle_Here" } else { "hay" };
        data.push_str(&format!("{i},{msg}\n"));
    }
    let mut ds = dataset(data.as_bytes());
    assert_eq!(ds.search("needle_here").unwrap(), vec![7, 3007, 6007]);
    assert_eq!(ds.search("msg:NEEDLE_HERE").unwrap(), vec![7, 3007, 6007]);
    assert_eq!(ds.search("n:needle_here").unwrap(), Vec::<u32>::new());
}
