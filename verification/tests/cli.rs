use zk_tools::groth16::cli::{parse_command, reject_extra, required_argument, usage, Command};

fn strings(items: &[&str]) -> Vec<String> {
    items.iter().map(|s| s.to_string()).collect()
}

#[test]
fn usage_names_the_program_in_both_lines() {
    assert_eq!(
        usage("tool"),
        "usage:\n  tool generate-verifier <verifying-key> <contract-name> <output.sol>\n  tool encode-proof <canonical-proof> <output.bin>"
    );
}

#[test]
fn commands_with_exactly_their_arguments_are_parsed() {
    assert_eq!(
        parse_command(strings(&["tool", "generate-verifier", "vk.bin", "Verifier", "out.sol"])),
        Ok(Command::GenerateVerifier {
            key_path: "vk.bin".to_string(),
            contract_name: "Verifier".to_string(),
            output_path: "out.sol".to_string(),
        })
    );
    assert_eq!(
        parse_command(strings(&["tool", "encode-proof", "proof.bin", "out.bin"])),
        Ok(Command::EncodeProof {
            proof_path: "proof.bin".to_string(),
            output_path: "out.bin".to_string(),
        })
    );
}

#[test]
fn malformed_command_lines_give_the_usage_text() {
    let expected = usage("tool");
    assert_eq!(parse_command(strings(&["tool"])), Err(expected.clone()));
    assert_eq!(parse_command(strings(&["tool", "unknown"])), Err(expected.clone()));
    assert_eq!(
        parse_command(strings(&["tool", "encode-proof", "proof.bin"])),
        Err(expected.clone())
    );
    assert_eq!(
        parse_command(strings(&["tool", "encode-proof", "a", "b", "c"])),
        Err(expected.clone())
    );
    assert_eq!(
        parse_command(strings(&["tool", "generate-verifier", "a", "b"])),
        Err(expected)
    );
    assert_eq!(parse_command(Vec::new()), Err(usage("dusk-groth16-solidity")));
}

#[test]
fn argument_helpers_follow_the_usage_convention() {
    assert_eq!(required_argument(Some("x".to_string()), "tool"), Ok("x".to_string()));
    assert_eq!(required_argument(None, "tool"), Err(usage("tool")));
    assert_eq!(reject_extra(None, "tool"), Ok(()));
    assert_eq!(reject_extra(Some("y".to_string()), "tool"), Err(usage("tool")));
}
