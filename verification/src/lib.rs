//! Small, independent algorithm and data-structure routines, each verified
//! against a precise contract: binary search over a sorted slice, Kadane's
//! maximum-subarray scan, longest-increasing-subsequence length by patience
//! sorting, interval merging, two-sum, duplicate detection, memoized
//! Fibonacci, and a bounded prime iterator.

pub mod counting;
pub mod fib;
pub mod intervals;
pub mod kadane;
pub mod lights;
pub mod lis;
pub mod person;
pub mod primes;
pub mod search;
pub mod text;
pub mod two_sum;

pub use counting::count_of;
pub use counting::dups_of;
pub use counting::find_duplicates;
pub use counting::find_duplicates_frequency;
pub use counting::frequency;
pub use fib::fib;
pub use fib::fibonacci;
pub use fib::memo_valid;
pub use intervals::covered;
pub use intervals::covers;
pub use intervals::insert_by_start;
pub use intervals::is_merged;
pub use intervals::merge_intervals;
pub use intervals::merge_sorted;
pub use intervals::sort_intervals;
pub use intervals::pairwise_disjoint;
pub use intervals::sorted_by_start;
pub use kadane::max_subarray;
pub use kadane::range_sum;
pub use kadane::sums_fit_i32;
pub use lights::light_color_name;
pub use lights::TrafficLight;
pub use lis::increasing_subseq;
pub use lis::lemma_subseq_len_le_bound;
pub use lis::lemma_subseq_of_push;
pub use lis::length_of_lis;
pub use lis::non_increasing;
pub use person::Person;
pub use primes::prime;
pub use primes::PrimeIterator;
pub use search::binary_search;
pub use search::sorted;
pub use text::calculate_length;
pub use text::change_string;
pub use two_sum::no_pair_in_prefix;
pub use two_sum::two_sum;
