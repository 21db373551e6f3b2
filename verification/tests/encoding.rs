use hdc::encode_stream;
use hdc::multiply;
use hdc::permute;
use hdc::BitAccumulator;
use hdc::HdcError;
use hdc::Hdv;
use hdc::RandSource;
use hdc::RollingNGramEncoder;
use hdc::SymbolTable;

const WORDS: usize = 8;

#[test]
fn feed_emits_the_window_ngram() {
    let mut table = SymbolTable::new(WORDS, RandSource::from_seed(11));
    let mut enc = RollingNGramEncoder::new(3, WORDS);
    assert!(enc.feed('a', &mut table).is_none());
    assert!(enc.feed('b', &mut table).is_none());
    let em = enc.feed('c', &mut table).unwrap();
    let va = table.get('a').unwrap();
    let vb = table.get('b').unwrap();
    let vc = table.get('c').unwrap();
    // window [c, b, a]: rot(vc, 0) xor rot(vb, 1) xor rot(va, 2)
    let expected = multiply(&multiply(&vc, &permute(&vb, 1)), &permute(&va, 2));
    assert_eq!(em, expected);
}

#[test]
fn feed_forgets_the_aged_out_symbol() {
    let mut table = SymbolTable::new(WORDS, RandSource::from_seed(12));
    let mut enc = RollingNGramEncoder::new(3, WORDS);
    enc.feed('a', &mut table);
    enc.feed('b', &mut table);
    enc.feed('c', &mut table);
    let em = enc.feed('d', &mut table).unwrap();
    let vb = table.get('b').unwrap();
    let vc = table.get('c').unwrap();
    let vd = table.get('d').unwrap();
    // window [d, c, b]: no trace of 'a' remains
    let expected = multiply(&multiply(&vd, &permute(&vc, 1)), &permute(&vb, 2));
    assert_eq!(em, expected);
}

#[test]
fn symbols_keep_their_vectors() {
    let mut table = SymbolTable::new(WORDS, RandSource::from_seed(13));
    let first = table.get_or_assign('x');
    let second = table.get_or_assign('x');
    assert_eq!(first, second);
    assert_eq!(table.get('x').unwrap(), first);
    assert!(table.contains('x'));
    assert!(!table.contains('y'));
    let other = table.get_or_assign('y');
    assert_ne!(other, first);
}

#[test]
fn unknown_symbol_is_reported() {
    let table = SymbolTable::new(WORDS, RandSource::from_seed(14));
    assert_eq!(table.get('q').unwrap_err(), HdcError::UnknownSymbol);
}

#[test]
fn encode_stream_counts_full_windows() {
    let mut table = SymbolTable::new(WORDS, RandSource::from_seed(15));
    let mut acc = BitAccumulator::new(WORDS);
    let chars: Vec<char> = "hello world".chars().collect();
    encode_stream(&chars, 3, &mut table, &mut acc);
    // 11 symbols, window of 3: positions 2..=10 emit
    assert_eq!(acc.total(), 9);
    let mut short_acc = BitAccumulator::new(WORDS);
    let two: Vec<char> = "he".chars().collect();
    encode_stream(&two, 3, &mut table, &mut short_acc);
    assert_eq!(short_acc.total(), 0);
}

#[test]
fn encode_stream_matches_manual_feeding() {
    let chars: Vec<char> = "abracadabra".chars().collect();
    let n = 4;

    let mut table1 = SymbolTable::new(WORDS, RandSource::from_seed(16));
    let mut acc1 = BitAccumulator::new(WORDS);
    encode_stream(&chars, n, &mut table1, &mut acc1);

    let mut table2 = SymbolTable::new(WORDS, RandSource::from_seed(16));
    let mut acc2 = BitAccumulator::new(WORDS);
    let mut enc = RollingNGramEncoder::new(n, WORDS);
    for &c in &chars {
        if let Some(v) = enc.feed(c, &mut table2) {
            acc2.accumulate(&v);
        }
    }
    assert_eq!(acc1.total(), acc2.total());
    assert_eq!(acc1.finalize(), acc2.finalize());
}

#[test]
fn prototypes_separate_two_streams() {
    // two toy "languages" with disjoint symbols; queries land on their own side
    let words = 64;
    let mut table = SymbolTable::new(words, RandSource::from_seed(17));
    let lang_a: Vec<char> = "aabbccddeeaabbccddee".chars().collect();
    let lang_b: Vec<char> = "xxyyzzwwvvxxyyzzwwvv".chars().collect();

    let mut acc_a = BitAccumulator::new(words);
    encode_stream(&lang_a, 3, &mut table, &mut acc_a);
    let proto_a = acc_a.finalize();
    let mut acc_b = BitAccumulator::new(words);
    encode_stream(&lang_b, 3, &mut table, &mut acc_b);
    let proto_b = acc_b.finalize();

    let query: Vec<char> = "bbccddee".chars().collect();
    let mut acc_q = BitAccumulator::new(words);
    encode_stream(&query, 3, &mut table, &mut acc_q);
    let q = acc_q.finalize();

    let protos = vec![proto_a, proto_b];
    assert_eq!(hdc::classify(&q, &protos).unwrap(), 0);

    // the one-call pipeline agrees with encoding and classifying by hand
    let again: Vec<char> = "bbccddee".chars().collect();
    assert_eq!(hdc::classify_stream(&again, 3, &mut table, &protos).unwrap(), 0);

    let other: Vec<char> = "yyzzwwvv".chars().collect();
    assert_eq!(hdc::classify_stream(&other, 3, &mut table, &protos).unwrap(), 1);
}

#[test]
fn classify_errors_are_exact() {
    let mut rng = RandSource::from_seed(18);
    let q = Hdv::new(&mut rng, WORDS);
    let empty: Vec<Hdv> = Vec::new();
    assert_eq!(hdc::classify(&q, &empty).unwrap_err(), HdcError::EmptyInput);
    let protos = vec![Hdv::new(&mut rng, WORDS), Hdv::new(&mut rng, WORDS + 2)];
    assert_eq!(hdc::classify(&q, &protos).unwrap_err(), HdcError::DimensionMismatch);
}

#[test]
fn classify_breaks_ties_by_first_class() {
    let mut rng = RandSource::from_seed(19);
    let q = Hdv::new(&mut rng, WORDS);
    let far = multiply(&q, &Hdv::new(&mut rng, WORDS));
    let protos = vec![far.duplicate(), q.duplicate(), q.duplicate(), far.duplicate()];
    assert_eq!(hdc::classify(&q, &protos).unwrap(), 1);
}
