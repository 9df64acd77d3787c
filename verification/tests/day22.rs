use puzzles::day22a;
use puzzles::day22b;

#[test]
fn test_mix() {
    let mut secret = day22a::Secret { value: 42 };
    secret.mix(15);
    assert_eq!(secret.value, 37);
}

#[test]
fn test_prune() {
    let mut secret = day22a::Secret { value: 100000000 };
    secret.prune();
    assert_eq!(secret.value, 16113920);
}

#[test]
fn test_evolve() {
    let mut secret = day22a::Secret { value: 123 };
    let expected = vec![
        15887950, 16495136, 527345, 704524, 1553684, 12683156, 11100544, 12249484, 7753432,
        5908254,
    ];
    for expected in expected {
        secret.evolve();
        assert_eq!(secret.value, expected);
    }
}

// The same three checks on the buyer variant that also builds the
// change-window map.
#[test]
fn test_mix_b() {
    let mut secret = day22b::Secret { value: 42 };
    secret.mix(15);
    assert_eq!(secret.value, 37);
}

#[test]
fn test_prune_b() {
    let mut secret = day22b::Secret { value: 100000000 };
    secret.prune();
    assert_eq!(secret.value, 16113920);
}

#[test]
fn test_evolve_b() {
    let mut secret = day22b::Secret { value: 123 };
    let expected = vec![
        15887950, 16495136, 527345, 704524, 1553684, 12683156, 11100544, 12249484, 7753432,
        5908254,
    ];
    for expected in expected {
        secret.evolve();
        assert_eq!(secret.value, expected);
    }
}

// Ten rounds from 123 sight the window -1,-1,0,2 first at a price of 6.
#[test]
fn test_sequence_b() {
    let mut secret = day22b::Secret { value: 123 };
    let map = secret.make_sequence(10);
    assert_eq!(map.get([-1, -1, 0, 2]), Some(6));
}

// A window never sighted has no price.
#[test]
fn test_sequence_absent() {
    let mut secret = day22b::Secret { value: 123 };
    let map = secret.make_sequence(10);
    assert_eq!(map.get([9, 9, 9, 9]), None);
}
