use refer::Writer;

fn wtr_as_string(wtr: Writer) -> String {
    String::from_utf8(wtr.into_inner().unwrap()).unwrap()
}

#[test]
fn one_record() {
    let mut wtr = Writer::new(vec![]);
    wtr.write_record(vec!["%A Brown, M", "%T refer crate"])
        .unwrap();

    assert_eq!(wtr_as_string(wtr), "%A Brown, M\n%T refer crate\n\n");
}
