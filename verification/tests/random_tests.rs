use revel::random::Random;

#[test]
fn random_follows_the_lehmer_sequence() {
    let mut rnd = Random::new(1);
    assert_eq!(rnd.next(), 16807);
    assert_eq!(rnd.next(), 282475249);
    assert_eq!(rnd.next(), 1622650073);
    let mut seed: u64 = 0xdeadbeef & 0x7fffffff;
    let mut rnd = Random::new(0xdeadbeef);
    for _ in 0..1000 {
        seed = seed * 16807 % 2147483647;
        assert_eq!(rnd.next() as u64, seed);
    }
}

#[test]
fn random_replaces_the_fixed_seeds() {
    assert_eq!(Random::new(0).next(), 16807);
    assert_eq!(Random::new(2147483647).next(), 16807);
    assert_eq!(Random::new(0x8000_0000).next(), 16807);
    assert_eq!(Random::new(0x8000_0001).next(), 16807);
}

#[test]
fn random_ranges() {
    let mut rnd = Random::new(301);
    let mut hits = 0;
    for _ in 0..4000 {
        assert!(rnd.uniform(10) < 10);
        assert!(rnd.skewed(5) < 32);
        if rnd.one_in(4) {
            hits += 1;
        }
    }
    assert!(hits > 800 && hits < 1200);
    let mut a = Random::new(7);
    let mut b = Random::new(7);
    let n = a.next();
    assert_eq!(b.uniform(10), n % 10);
}
