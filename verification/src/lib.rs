use vstd::prelude::*;

pub mod abbreviations;
pub mod arith;
pub mod char_checks;
pub mod checked_arith;
pub mod hosts;
pub mod letters;
pub mod line_stats;
pub mod maximum;
pub mod messenger;
pub mod prime_cache;
pub mod prime_search;
pub mod primes;
pub mod rot13;
pub mod song;
pub mod strict_arith;
pub mod students;
pub mod terminal;
pub mod text;
pub mod text_builder;
pub mod unicode;
pub mod word_freq;
