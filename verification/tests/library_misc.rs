use algo_snippets::calculate_length;
use algo_snippets::change_string;
use algo_snippets::fibonacci;
use algo_snippets::light_color_name;
use algo_snippets::PrimeIterator;
use algo_snippets::TrafficLight;
use std::collections::HashMap;

#[test]
fn test_calculate_length() {
    let s = String::from("hello");
    let len = calculate_length(&s);
    assert_eq!(len, 5, "Length of 'hello' should be 5");
}

#[test]
fn test_calculate_length_non_ascii() {
    let s = String::from("h\u{e9}llo");
    assert_eq!(s.chars().count(), 5);
    assert_eq!(calculate_length(&s), 6);
}

#[test]
fn test_change_string() {
    let mut s = String::from("hello");
    change_string(&mut s);
    assert_eq!(s, "hello, world!");
}

#[test]
fn test_fibonacci_memoized() {
    let mut memo = HashMap::new();
    assert_eq!(fibonacci(10, &mut memo), 55);
    assert_eq!(fibonacci(0, &mut memo), 0);
    assert_eq!(fibonacci(1, &mut memo), 1);
    assert_eq!(fibonacci(50, &mut memo), 12586269025);
    assert_eq!(fibonacci(10, &mut memo), 55);
}

#[test]
fn test_prime_iterator() {
    let mut iter = PrimeIterator::new(10);
    let mut primes: Vec<u32> = Vec::new();
    while let Some(p) = iter.next() {
        primes.push(p);
    }
    assert_eq!(primes, vec![2, 3, 5, 7]);
}

#[test]
fn test_prime_iterator_empty_range() {
    let mut iter = PrimeIterator::new(1);
    assert_eq!(iter.next(), None);
}

#[test]
fn test_is_prime_values() {
    assert!(!PrimeIterator::is_prime(0));
    assert!(!PrimeIterator::is_prime(1));
    assert!(PrimeIterator::is_prime(2));
    assert!(PrimeIterator::is_prime(97));
    assert!(!PrimeIterator::is_prime(91));
    assert!(!PrimeIterator::is_prime(10000));
    assert!(PrimeIterator::is_prime(65537));
}

#[test]
fn test_light_color_names() {
    assert_eq!(light_color_name(&TrafficLight::Red), "Red");
    assert_eq!(light_color_name(&TrafficLight::Green), "Green");
    assert_eq!(light_color_name(&TrafficLight::Yellow), "Yellow");
}

#[test]
fn test_main() {
    let mut map = HashMap::new();
    map.insert("a", 10);
    let result = map.get("a").ok_or("Key not found");
    match result {
        Ok(value) => println!("Found: {}", value),
        Err(e) => println!("Error: {}", e),
    }
}

#[test]
fn test_main_output() {
    let mut map = HashMap::new();
    map.insert("a", 10);
    let result = map.get("a").ok_or("Key not found");
    let output = match result {
        Ok(value) => format!("Found: {}\n", value),
        Err(e) => format!("Error: {}\n", e),
    };
    assert_eq!(output, "Found: 10\n");
}

#[test]
fn main_test_main() {
    let vec = vec![Some(1), None, Some(3)];
    for value in vec {
        match value {
            Some(v) => println!("Value: {}", v),
            None => println!("None found"),
        }
    }
}
