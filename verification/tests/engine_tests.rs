use r2deob::engine::{parse_i64, FcnConfig, Session, TraceMatrix, Traces, R2Error};

fn config(regs: Vec<&str>) -> FcnConfig {
    FcnConfig {
        path: "target/binary".to_string(),
        loc: "sym.calc".to_string(),
        len: "12".to_string(),
        input_regs: regs.iter().map(|r| r.to_string()).collect(),
        output_reg: "rax".to_string(),
    }
}

#[test]
fn parse_decimal_words() {
    assert_eq!(parse_i64("0"), Some(0));
    assert_eq!(parse_i64("123"), Some(123));
    assert_eq!(parse_i64("+17"), Some(17));
    assert_eq!(parse_i64("-45"), Some(-45));
    assert_eq!(parse_i64("9223372036854775807"), Some(i64::MAX));
    assert_eq!(parse_i64("-9223372036854775808"), Some(i64::MIN));
    assert_eq!(parse_i64("00000000000000000000042"), Some(42));
}

#[test]
fn parse_rejects_malformed_words() {
    assert_eq!(parse_i64(""), None);
    assert_eq!(parse_i64("-"), None);
    assert_eq!(parse_i64("+"), None);
    assert_eq!(parse_i64("12a"), None);
    assert_eq!(parse_i64(" 12"), None);
    assert_eq!(parse_i64("9223372036854775808"), None);
    assert_eq!(parse_i64("-9223372036854775809"), None);
}

#[test]
fn push_strings_appends_parsed_rows() {
    let mut traces = Traces {
        inputs: TraceMatrix::new(&vec!["esi".to_string(), "edi".to_string()]),
        outputs: Vec::new(),
    };
    let regs = vec!["esi".to_string(), "edi".to_string()];
    let r = traces.push_strings(regs.clone(), vec!["3".to_string(), "4".to_string()], "7".to_string());
    assert!(r.is_ok());
    let r = traces.push_strings(regs, vec!["-1".to_string(), "10".to_string()], "9".to_string());
    assert!(r.is_ok());
    assert_eq!(traces.outputs, vec![7, 9]);
    assert_eq!(traces.inputs.cols[0].1, vec![3, -1]);
    assert_eq!(traces.inputs.cols[1].1, vec![4, 10]);
}

#[test]
fn push_strings_rejects_length_mismatch() {
    let mut traces = Traces {
        inputs: TraceMatrix::new(&vec!["esi".to_string(), "edi".to_string()]),
        outputs: Vec::new(),
    };
    let r = traces.push_strings(
        vec!["esi".to_string(), "edi".to_string()],
        vec!["3".to_string()],
        "7".to_string(),
    );
    assert_eq!(r, Err("expected one input for each register".to_string()));
    assert_eq!(traces.outputs.len(), 0);
    assert_eq!(traces.inputs.cols[0].1.len(), 0);
}

#[test]
fn push_strings_rejects_malformed_values() {
    let mut traces = Traces {
        inputs: TraceMatrix::new(&vec!["esi".to_string()]),
        outputs: Vec::new(),
    };
    let r = traces.push_strings(vec!["esi".to_string()], vec!["0x1f".to_string()], "7".to_string());
    assert!(r.is_err());
    assert_eq!(traces.outputs.len(), 0);
}

#[test]
fn push_strings_accepts_reordered_registers() {
    // registers may come in any order; values land in their named columns
    let mut traces = Traces {
        inputs: TraceMatrix::new(&vec!["esi".to_string(), "edi".to_string()]),
        outputs: Vec::new(),
    };
    let r = traces.push_strings(
        vec!["edi".to_string(), "esi".to_string()],
        vec!["4".to_string(), "3".to_string()],
        "7".to_string(),
    );
    assert!(r.is_ok());
    assert_eq!(traces.inputs.cols[0].1, vec![3]);
    assert_eq!(traces.inputs.cols[1].1, vec![4]);
    assert_eq!(traces.outputs, vec![7]);
}

#[test]
fn push_strings_rejects_foreign_register() {
    let mut traces = Traces {
        inputs: TraceMatrix::new(&vec!["esi".to_string(), "edi".to_string()]),
        outputs: Vec::new(),
    };
    let r = traces.push_strings(
        vec!["esi".to_string(), "edx".to_string()],
        vec!["3".to_string(), "4".to_string()],
        "7".to_string(),
    );
    assert!(r.is_err());
    assert_eq!(traces.outputs.len(), 0);
}

#[test]
fn session_add_trace_appends_by_register_name() {
    let mut session = Session::init(config(vec!["a", "b"]));
    // names may come in any order; values land in their registers' columns
    let r = session.add_trace(&vec![("b".to_string(), 20), ("a".to_string(), 1)], 21);
    assert!(r.is_ok());
    assert_eq!(session.traces.inputs.cols[0].1, vec![1]);
    assert_eq!(session.traces.inputs.cols[1].1, vec![20]);
    assert_eq!(session.traces.outputs, vec![21]);
}

#[test]
fn session_add_trace_rejects_wrong_register_set() {
    // a trace whose register set differs from the session's is BadTrace
    // and leaves the trace count unchanged
    let mut session = Session::init(config(vec!["a", "b"]));
    session
        .add_trace(&vec![("a".to_string(), 1), ("b".to_string(), 2)], 3)
        .unwrap();
    let r = session.add_trace(&vec![("a".to_string(), 1), ("z".to_string(), 2)], 3);
    assert_eq!(r, Err(R2Error::BadTrace));
    let r = session.add_trace(&vec![("a".to_string(), 1)], 3);
    assert_eq!(r, Err(R2Error::BadTrace));
    assert_eq!(session.traces.outputs.len(), 1);
    assert_eq!(session.traces.inputs.cols[0].1.len(), 1);
}
