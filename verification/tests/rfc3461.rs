use rustyknife::rfc3461::{
    convert_notify_list, dsn_mail_params, dsn_notify, orcpt_address, DSNMailParams, DSNRet, Notify,
};

#[test]
fn orcpt_plain() {
    let (rest, split) = orcpt_address(b"rfc822;bob@example.org").unwrap();
    assert_eq!(rest, b"");
    assert_eq!(split, ("rfc822".to_string(), "bob@example.org".to_string()));
}

#[test]
fn orcpt_with_escapes() {
    let (_, split) = orcpt_address(b"rfc822;bob+2Bx+3D@example.org").unwrap();
    assert_eq!(split, ("rfc822".to_string(), "bob+x=@example.org".to_string()));
}

#[test]
fn orcpt_refused() {
    assert!(orcpt_address(b"rfc822 bob@example.org").is_err());
    assert!(orcpt_address(b";bob@example.org").is_err());
    assert!(orcpt_address(b"rfc822;bob+00").is_err());
}

#[test]
fn mail_params_ret_and_other() {
    let input = [("RET", Some("HDRS")), ("OTHER", None)];
    let (params, other) = dsn_mail_params(&input).unwrap();
    assert_eq!(params, DSNMailParams { envid: None, ret: Some(DSNRet::Hdrs) });
    assert_eq!(other, [("OTHER", None)]);
}

#[test]
fn mail_params_envid() {
    let input = [("envid", Some("QQ314159+2B")), ("Ret", Some("full")), ("SIZE", Some("10"))];
    let (params, other) = dsn_mail_params(&input).unwrap();
    assert_eq!(
        params,
        DSNMailParams { envid: Some("QQ314159+".to_string()), ret: Some(DSNRet::Full) }
    );
    assert_eq!(other, [("SIZE", Some("10"))]);
}

#[test]
fn mail_params_errors() {
    assert_eq!(dsn_mail_params(&[("RET", Some("FULL")), ("RET", Some("HDRS"))]), Err("Duplicate RET"));
    assert_eq!(dsn_mail_params(&[("RET", Some("ALL"))]), Err("Invalid RET"));
    assert_eq!(dsn_mail_params(&[("RET", None)]), Err("RET without value"));
    assert_eq!(dsn_mail_params(&[("ENVID", Some("a")), ("ENVID", Some("b"))]), Err("Duplicate ENVID"));
    assert_eq!(dsn_mail_params(&[("ENVID", None)]), Err("ENVID without value"));
    assert_eq!(dsn_mail_params(&[("ENVID", Some("a b"))]), Err("Invalid ENVID"));
    assert_eq!(dsn_mail_params(&[("ENVID", Some("a+0"))]), Err("Invalid ENVID"));
    assert_eq!(dsn_mail_params(&[("ENVID", Some("a+00"))]), Err("Invalid ENVID"));
    let long = "x".repeat(101);
    assert_eq!(dsn_mail_params(&[("ENVID", Some(long.as_str()))]), Err("ENVID over 100 bytes"));
    let fits = "x".repeat(100);
    assert!(dsn_mail_params(&[("ENVID", Some(fits.as_str()))]).is_ok());
}

#[test]
fn mail_params_first_error_decides() {
    assert_eq!(
        dsn_mail_params(&[("RET", Some("ALL")), ("ENVID", None)]),
        Err("Invalid RET")
    );
}

#[test]
fn notify_list() {
    let n = convert_notify_list(vec!["SUCCESS", "other", "Delay"]);
    assert_eq!(n, Notify { on_success: true, on_failure: false, delay: true });
    let none = convert_notify_list(vec![]);
    assert_eq!(none, Notify { on_success: false, on_failure: false, delay: false });
}

#[test]
fn notify_values() {
    assert_eq!(
        dsn_notify("NEVER"),
        Ok(("", Notify { on_success: false, on_failure: false, delay: false }))
    );
    assert_eq!(
        dsn_notify("success,FAILURE rest"),
        Ok((" rest", Notify { on_success: true, on_failure: true, delay: false }))
    );
    assert_eq!(
        dsn_notify("delay,"),
        Ok((",", Notify { on_success: false, on_failure: false, delay: true }))
    );
    assert_eq!(dsn_notify("sometimes"), Err(()));
    assert_eq!(dsn_notify(""), Err(()));
}
