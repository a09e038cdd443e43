use buddyalloc::math::{is_power_of_two, log2, next_power_of_two};

#[test]
fn test_log2() {
    assert_eq!(0, log2(0));
    assert_eq!(0, log2(1));
    assert_eq!(1, log2(2));
    assert_eq!(5, log2(32));
    assert_eq!(10, log2(1024));
}

#[test]
fn log2_rounds_down() {
    assert_eq!(1, log2(3));
    assert_eq!(2, log2(4));
    assert_eq!(2, log2(7));
    assert_eq!(3, log2(8));
    assert_eq!(9, log2(1023));
    assert_eq!(10, log2(1025));
}

#[test]
fn log2_of_the_largest_word() {
    assert_eq!((usize::BITS - 1) as u8, log2(usize::MAX));
    assert_eq!((usize::BITS - 1) as u8, log2(1 << (usize::BITS - 1)));
    assert_eq!((usize::BITS - 2) as u8, log2((1 << (usize::BITS - 1)) - 1));
}

#[test]
fn log2_brackets_its_argument() {
    let mut n: usize = 1;
    while n < 5000 {
        let e = log2(n) as u32;
        assert!(1usize << e <= n);
        assert!(n < 1usize << (e + 1));
        n += 1;
    }
}

#[test]
fn is_power_of_two_knows_the_powers() {
    assert!(!is_power_of_two(0));
    assert!(is_power_of_two(1));
    assert!(is_power_of_two(2));
    assert!(!is_power_of_two(3));
    assert!(is_power_of_two(4096));
    assert!(!is_power_of_two(4097));
    assert!(!is_power_of_two(6));
    assert!(is_power_of_two(1 << (usize::BITS - 1)));
    assert!(!is_power_of_two(usize::MAX));
}

#[test]
fn is_power_of_two_agrees_with_std() {
    let mut n: usize = 0;
    while n < 5000 {
        assert_eq!(n.is_power_of_two(), is_power_of_two(n));
        n += 1;
    }
}

#[test]
fn next_power_of_two_rounds_up() {
    assert_eq!(1, next_power_of_two(0));
    assert_eq!(1, next_power_of_two(1));
    assert_eq!(2, next_power_of_two(2));
    assert_eq!(4, next_power_of_two(3));
    assert_eq!(16, next_power_of_two(16));
    assert_eq!(32, next_power_of_two(17));
    assert_eq!(1 << (usize::BITS - 1), next_power_of_two((1 << (usize::BITS - 2)) + 1));
    assert_eq!(1 << (usize::BITS - 1), next_power_of_two(1 << (usize::BITS - 1)));
}

#[test]
fn next_power_of_two_agrees_with_std() {
    let mut n: usize = 0;
    while n < 5000 {
        assert_eq!(n.next_power_of_two(), next_power_of_two(n));
        n += 1;
    }
}
