use codegenome::identity::{address_of, address_of_str};
use codegenome::lang::builder::{file_address, symbol_address};

#[test]
fn same_name_symbols_in_different_files_get_distinct_addresses() {
    let a = symbol_address("src/commands/index.rs", "function_item", "run");
    let b = symbol_address("src/commands/query.rs", "function_item", "run");
    assert_ne!(a, b, "same-named symbols in different files must not share an identity");
}

#[test]
fn symbol_address_hashes_its_preimage() {
    let a = symbol_address("src/lib.rs", "function_item", "run");
    assert_eq!(a, address_of(b"sym:src/lib.rs:function_item:run"));
    assert_eq!(file_address("src/lib.rs"), address_of(b"file:src/lib.rs"));
}

#[test]
fn address_is_the_blake3_digest() {
    // BLAKE3 of the empty input.
    assert_eq!(
        address_of(b"").to_hex(),
        "af1349b9f5f9a1a6a0404dea36dcc9499bcb25c9adc112b7cc9a93cae41f3262"
    );
    assert_eq!(address_of(b"").short_hex(), "af1349b9");
    assert_eq!(address_of_str("abc"), address_of(b"abc"));
    assert_ne!(address_of(b"a"), address_of(b"b"));
}

#[test]
fn different_files_get_distinct_file_addresses() {
    assert_ne!(file_address("src/a.rs"), file_address("src/b.rs"));
    assert_eq!(file_address("src/a.rs"), file_address("src/a.rs"));
}
