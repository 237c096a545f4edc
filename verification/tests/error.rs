use nchant_flow::error::TimingError;

#[test]
fn io_error_keeps_path_and_source() {
    let e = TimingError::io("model.yaml", std::io::Error::new(std::io::ErrorKind::NotFound, "missing"));
    match e {
        TimingError::Io { path, source } => {
            assert_eq!(path, "model.yaml");
            assert_eq!(source.kind(), std::io::ErrorKind::NotFound);
        }
        _ => panic!("expected an Io error"),
    }
}

#[test]
fn yaml_error_keeps_path_and_source() {
    let parse: Result<Vec<String>, serde_yaml::Error> = serde_yaml::from_str("[unclosed");
    let e = TimingError::yaml("global.yaml", parse.unwrap_err());
    match e {
        TimingError::Yaml { path, source } => {
            assert_eq!(path, "global.yaml");
            assert!(!source.to_string().is_empty());
        }
        _ => panic!("expected a Yaml error"),
    }
}
