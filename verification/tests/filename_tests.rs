use revel::filename::{
    current_file_name, descriptor_base_name, descriptor_file_name, file_name, lock_file_name,
    log_file_name, make_file_name, temp_file_name,
};

#[test]
fn filename_test() {
    assert_eq!("testdb/000192.log", make_file_name("testdb", 192, "log").as_str());
    assert_eq!("testdb/192345.log", make_file_name("testdb", 192345, "log").as_str());
    assert_eq!("testdb/1923457.log", make_file_name("testdb", 1923457, "log").as_str());
}

#[test]
fn file_names_of_each_kind() {
    assert_eq!(log_file_name("db", 192).as_str(), "db/000192.log");
    assert_eq!(lock_file_name("db"), "db/LOCK");
    assert_eq!(current_file_name("db"), "db/CURRENT");
    assert_eq!(descriptor_file_name("db", 7), "db/MANIFEST-000007");
    assert_eq!(descriptor_base_name(7), "MANIFEST-000007");
    assert_eq!(descriptor_base_name(12345678), "MANIFEST-12345678");
    assert_eq!(temp_file_name("db", 0), "db/000000.dbtmp");
    assert_eq!(file_name("a", "/b"), "a/b");
    assert_eq!(make_file_name("db", u64::MAX, "log"), "db/18446744073709551615.log");
}
