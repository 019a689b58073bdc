//! Roman numerals: conversion between positive integers and sequences of
//! Roman digits, and from single characters or bytes to digits.

pub mod digit;
pub mod error;
pub mod numeral;

pub use digit::Digit;
pub use error::Error;
