use phantom::kv::{BlockId, TokenId};

#[test]
fn lib_crate_compiles() {}

#[test]
fn types_exported() {
    let _id = BlockId(0);
    let _tok: TokenId = 42u32;
    let _ = format!("{:?}", BlockId(1));
}
