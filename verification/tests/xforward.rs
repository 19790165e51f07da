use rustyknife::xforward::{command, xforward_params, Param};

fn plain(params: Vec<Param>) -> Vec<(String, Option<String>)> {
    params.into_iter().map(|p| (p.0.to_string(), p.1)).collect()
}

#[test]
fn two_parameters() {
    let (rest, params) = xforward_params(b"NAME=spike.porcupine.org ADDR=168.100.189.2").unwrap();
    assert_eq!(rest, b"");
    assert_eq!(
        plain(params),
        vec![
            ("name".to_string(), Some("spike.porcupine.org".to_string())),
            ("addr".to_string(), Some("168.100.189.2".to_string())),
        ]
    );
}

#[test]
fn unavailable_and_escapes() {
    let (_, params) = xforward_params(b" helo=[UNAVAILABLE]\tPROTO=a+2Bb").unwrap();
    assert_eq!(
        plain(params),
        vec![("helo".to_string(), None), ("proto".to_string(), Some("a+b".to_string()))]
    );
}

#[test]
fn unknown_name() {
    assert!(xforward_params(b"FOO=bar").is_err());
    let (rest, params) = xforward_params(b"PORT=25 FOO=bar").unwrap();
    assert_eq!(rest, b" FOO=bar");
    assert_eq!(plain(params), vec![("port".to_string(), Some("25".to_string()))]);
}

#[test]
fn whole_command() {
    let (rest, params) = command(b"XFORWARD IDENT=x SOURCE=local\r\nnext").unwrap();
    assert_eq!(rest, b"next");
    assert_eq!(
        plain(params),
        vec![
            ("ident".to_string(), Some("x".to_string())),
            ("source".to_string(), Some("local".to_string())),
        ]
    );
    assert!(command(b"XFORWARD IDENT=x").is_err());
    assert!(command(b"FORWARD IDENT=x\r\n").is_err());
}
