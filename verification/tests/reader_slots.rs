use fluxdb::transaction_manager::TransactionManager;

#[test]
fn loom_reader_slot_tests_require_cfg_loom() {
    println!("run with `RUSTFLAGS='--cfg loom' cargo test -p db-core --test loom_reader_slots`");
    let _ = TransactionManager::new();
}
