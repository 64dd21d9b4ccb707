use dark::bwt;
use dark::saca::{Constructor, Suffix, Symbol};

fn some_detail(input: &[Symbol], suf_expected: &[Suffix], origin_expected: usize, out_expected: &[Symbol]) {
    let mut con = Constructor::new(input.len());
    let (output, origin) = {
        let suf = con.compute(input);
        assert_eq!(&suf[..], suf_expected);
        bwt::encode(input, suf)
    };
    assert_eq!(origin, origin_expected);
    assert_eq!(&output[..], out_expected);
    let suf = &mut con.reuse()[..input.len()];
    let decoded: Vec<Symbol> = bwt::decode(&output, origin, suf);
    assert_eq!(&input[..], &decoded[..]);
}

#[test]
fn detailed() {
    some_detail(b"abracadabra", &[10, 7, 0, 3, 5, 8, 1, 4, 6, 9, 2], 2, b"rdarcaaaabb");
    some_detail(b"banana", &[5, 3, 1, 0, 4, 2], 3, b"nnbaaa");
}

fn sample_text(len: usize) -> Vec<u8> {
    let words: [&[u8]; 12] = [
        b"the ", b"quick ", b"brown ", b"fox ", b"jumps ", b"over ", b"lazy ", b"dog", b". ", b"Rights ",
        b"granted ", b"hereunder\n",
    ];
    let mut out = Vec::new();
    let mut state: u32 = 12345;
    while out.len() < len {
        state = state.wrapping_mul(1103515245).wrapping_add(12345);
        let word = words[((state >> 16) % 12) as usize];
        out.extend_from_slice(word);
    }
    out.truncate(len);
    out
}

fn some_roundtrip(input: &[Symbol]) {
    let mut con = Constructor::new(input.len());
    let (output, origin) = {
        let suf = con.compute(input);
        bwt::encode(input, suf)
    };
    let decoded: Vec<Symbol> = bwt::decode(&output, origin, &mut con.reuse()[..input.len()]);
    assert_eq!(&input[..], &decoded[..]);
}

#[test]
fn saca_roundtrips() {
    some_roundtrip(&sample_text(11_000));
}

fn naive_suffix_array(input: &[u8]) -> Vec<u32> {
    let mut sa: Vec<u32> = (0..input.len() as u32).collect();
    sa.sort_by(|&a, &b| input[a as usize..].cmp(&input[b as usize..]));
    sa
}

#[test]
fn induced_sorting_is_certified() {
    let inputs: Vec<Vec<u8>> = vec![
        b"a".to_vec(),
        b"ba".to_vec(),
        b"ab".to_vec(),
        b"aaaaaaaa".to_vec(),
        b"abababababab".to_vec(),
        b"mississippi".to_vec(),
        b"abracadabra".to_vec(),
        vec![255, 0, 255, 0, 0, 255],
        sample_text(3000),
    ];
    for input in inputs.iter() {
        let mut con = Constructor::new(input.len());
        assert_eq!(con.compute(input), &naive_suffix_array(input)[..]);
        assert_eq!(&con.reuse()[..input.len()], &naive_suffix_array(input)[..]);
    }
}

#[test]
fn induced_sorting_on_random_blocks() {
    for round in 0..40 {
        let len = 1 + (round * 37) % 500;
        let spread: u32 = if round % 3 == 0 { 2 } else if round % 3 == 1 { 4 } else { 256 };
        let input: Vec<u8> = (0..len).map(|_| (rand::random::<u32>() % spread) as u8).collect();
        let mut con = Constructor::new(input.len());
        assert_eq!(con.compute(&input), &naive_suffix_array(&input)[..]);
    }
}

#[test]
fn shorter_block_than_capacity() {
    let mut con = Constructor::new(100);
    assert_eq!(con.capacity(), 100);
    assert_eq!(con.compute(b"banana"), &[5, 3, 1, 0, 4, 2]);
}

#[test]
fn empty_block_has_empty_suffix_array() {
    let mut con = Constructor::new(0);
    assert_eq!(con.compute(b"").len(), 0);
}

#[test]
fn direct_sort_agrees() {
    let input = b"abracadabra";
    let mut storage: Vec<u32> = vec![7; 20];
    dark::suffix::sort_direct(input, &mut storage);
    assert_eq!(&storage[..11], &[10, 7, 0, 3, 5, 8, 1, 4, 6, 9, 2]);
    assert_eq!(&storage[11..], &[7; 9]);
    let mut rank = vec![0u32; 11];
    assert!(dark::suffix::is_sorted_suffixes(input, &storage, &mut rank));
    storage.swap(0, 1);
    assert!(!dark::suffix::is_sorted_suffixes(input, &storage, &mut rank));
    assert!(dark::suffix::suffix_less(input, 10, 7));
    assert!(!dark::suffix::suffix_less(input, 7, 10));
    assert!(!dark::suffix::suffix_less(input, 3, 3));
}

#[test]
fn transform_is_certified() {
    let input = b"abracadabra";
    let mut con = Constructor::new(input.len());
    let suf: Vec<Suffix> = con.compute(input).to_vec();
    let mut table = vec![0u32; input.len()];
    let (column, origin) = bwt::encode_certified(input, &suf, &mut table).unwrap();
    assert_eq!(&column[..], b"rdarcaaaabb");
    assert_eq!(origin, 2);
    assert!(bwt::inverts(&column, origin, input, &mut table));
    assert!(!bwt::inverts(&column, 3, input, &mut table));
    assert!(!bwt::inverts(b"rdarcaaaabc", origin, input, &mut table));
}

#[test]
fn induced_sorting_of_repeating_texts() {
    // texts whose LMS substrings repeat, so that the names are sorted in turn
    let mut fib_a: Vec<u8> = b"b".to_vec();
    let mut fib_b: Vec<u8> = b"a".to_vec();
    while fib_b.len() < 4000 {
        let mut next = fib_b.clone();
        next.extend_from_slice(&fib_a);
        fib_a = fib_b;
        fib_b = next;
    }
    let period: Vec<u8> = (0..5000usize).map(|i| b"cabbage"[i % 7]).collect();
    let squares: Vec<u8> = (0..6000usize).map(|i| ((i * i) % 3) as u8 + ((i / 64) % 2) as u8).collect();
    for input in [fib_b, period, squares].iter() {
        let mut con = Constructor::new(input.len());
        assert_eq!(con.compute(input), &naive_suffix_array(input)[..]);
    }
}

fn is_suffix_array(input: &[u8], sa: &[u32]) -> bool {
    let mut seen = vec![false; input.len()];
    for &p in sa.iter() {
        if p as usize >= input.len() || seen[p as usize] {
            return false;
        }
        seen[p as usize] = true;
    }
    sa.len() == input.len() && sa.windows(2).all(|w| input[w[0] as usize..] < input[w[1] as usize..])
}

#[test]
fn large_blocks_are_sorted_in_linear_time() {
    // a block on which sorting by comparison alone would not end in time
    let n: usize = 400_000;
    let noise: Vec<u8> = (0..n).map(|_| rand::random::<u8>() % 4).collect();
    let mut con = Constructor::new(n);
    assert!(is_suffix_array(&noise, con.compute(&noise)));
    let runs: Vec<u8> = (0..n).map(|i| ((i / 1000) % 7) as u8).collect();
    assert!(is_suffix_array(&runs, con.compute(&runs)));
}

#[test]
fn short_blocks_are_sorted() {
    let mut con = Constructor::new(3);
    assert_eq!(con.compute(b"bab"), &[1, 2, 0]);
    assert_eq!(con.compute(b"a"), &[0]);
    assert_eq!(con.compute(b"aa"), &[1, 0]);
    assert_eq!(con.compute(b"ba"), &[1, 0]);
    assert_eq!(con.compute(b"ab"), &[0, 1]);
}
