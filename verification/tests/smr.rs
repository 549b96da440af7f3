struct MyDatabase {
    data: Vec<String>,
}

#[allow(dead_code)]
enum Commands {
    Insert(u32, String),
    Get(u32),
}

#[test]
fn test_smr() -> anyhow::Result<()> {
    let db = MyDatabase { data: vec![] };
    assert!(db.data.is_empty());
    Ok(())
}
