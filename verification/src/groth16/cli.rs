//! Argument handling of the command-line verifier tools.

use vstd::prelude::*;

use crate::text::push_str;

verus! {

/// The usage text for `program`.
pub open spec fn usage_text(program: Seq<char>) -> Seq<char> {
    "usage:\n  "@ + program + " generate-verifier <verifying-key> <contract-name> <output.sol>\n  "@
        + program + " encode-proof <canonical-proof> <output.bin>"@
}

/// The usage text naming `program`.
pub fn usage(program: &str) -> (r: String)
    ensures
        r@ == usage_text(program@),
{
    let mut text = String::new();
    push_str(&mut text, "usage:\n  ");
    push_str(&mut text, program);
    push_str(&mut text, " generate-verifier <verifying-key> <contract-name> <output.sol>\n  ");
    push_str(&mut text, program);
    push_str(&mut text, " encode-proof <canonical-proof> <output.bin>");
    text
}

/// A required argument: the next argument when there is one, otherwise the
/// usage text as the error.
pub fn required_argument(next: Option<String>, program: &str) -> (r: Result<String, String>)
    ensures
        match next {
            Some(argument) => r == Ok::<String, String>(argument),
            None => r matches Err(message) && message@ == usage_text(program@),
        },
{
    match next {
        Some(argument) => Ok(argument),
        None => Err(usage(program)),
    }
}

/// Reject a surplus argument with the usage text.
pub fn reject_extra(next: Option<String>, program: &str) -> (r: Result<(), String>)
    ensures
        next is None ==> r is Ok,
        next is Some ==> (r matches Err(message) && message@ == usage_text(program@)),
{
    match next {
        Some(_) => Err(usage(program)),
        None => Ok(()),
    }
}

/// A command of the verifier tools, with its file arguments.
#[derive(Debug, Clone, PartialEq, Eq)]
pub enum Command {
    /// Render a verifier contract for a verification key.
    GenerateVerifier {
        /// Path of the encoded verification key.
        key_path: String,
        /// Name of the contract.
        contract_name: String,
        /// Path of the contract to write.
        output_path: String,
    },
    /// Re-encode a canonical proof for the precompile interface.
    EncodeProof {
        /// Path of the canonical proof.
        proof_path: String,
        /// Path of the encoding to write.
        output_path: String,
    },
}

/// The program name: the first argument, or the tool's own name.
pub open spec fn program_name(arguments: Seq<String>) -> Seq<char> {
    if arguments.len() > 0 {
        arguments[0]@
    } else {
        "dusk-groth16-solidity"@
    }
}

/// The command line `arguments` (program name first) names `command` with
/// exactly its arguments.
pub open spec fn parses_to(arguments: Seq<String>, command: Command) -> bool {
    match command {
        Command::GenerateVerifier { key_path, contract_name, output_path } => {
            &&& arguments.len() == 5
            &&& arguments[1]@ == "generate-verifier"@
            &&& key_path == arguments[2]
            &&& contract_name == arguments[3]
            &&& output_path == arguments[4]
        },
        Command::EncodeProof { proof_path, output_path } => {
            &&& arguments.len() == 4
            &&& arguments[1]@ == "encode-proof"@
            &&& proof_path == arguments[2]
            &&& output_path == arguments[3]
        },
    }
}

/// The command line names a command with exactly its arguments.
pub open spec fn well_formed_command(arguments: Seq<String>) -> bool {
    ||| (arguments.len() == 5 && arguments[1]@ == "generate-verifier"@)
    ||| (arguments.len() == 4 && arguments[1]@ == "encode-proof"@)
}

/// The argument at `index`, if there is one.
fn argument(arguments: &Vec<String>, index: usize) -> (r: Option<String>)
    ensures
        index < arguments@.len() ==> r == Some(arguments@[index as int]),
        index >= arguments@.len() ==> r is None,
{
    if index < arguments.len() {
        Some(arguments[index].clone())
    } else {
        None
    }
}

/// Parse a command line, program name first: a known command with exactly
/// its arguments, or the usage text as the error.
pub fn parse_command(arguments: Vec<String>) -> (r: Result<Command, String>)
    ensures
        well_formed_command(arguments@) ==> (r matches Ok(command) && parses_to(arguments@, command)),
        !well_formed_command(arguments@) ==> (r matches Err(message) && message@ == usage_text(
            program_name(arguments@),
        )),
{
    let program = if arguments.len() > 0 {
        arguments[0].clone()
    } else {
        String::from_str("dusk-groth16-solidity")
    };
    let command = match argument(&arguments, 1) {
        Some(command) => command,
        None => {
            return Err(usage(program.as_str()));
        },
    };
    let generate = String::from_str("generate-verifier");
    let encode = String::from_str("encode-proof");
    proof {
        reveal_strlit("generate-verifier");
        reveal_strlit("encode-proof");
    }
    if command == generate {
        proof {
            assert(command@ == "generate-verifier"@);
            assert(command == arguments@[1]);
            assert("generate-verifier"@ != "encode-proof"@) by {
                assert("generate-verifier"@.len() != "encode-proof"@.len());
            }
        }
        let key_path = required_argument(argument(&arguments, 2), program.as_str())?;
        let contract_name = required_argument(argument(&arguments, 3), program.as_str())?;
        let output_path = required_argument(argument(&arguments, 4), program.as_str())?;
        reject_extra(argument(&arguments, 5), program.as_str())?;
        Ok(Command::GenerateVerifier { key_path, contract_name, output_path })
    } else if command == encode {
        let proof_path = required_argument(argument(&arguments, 2), program.as_str())?;
        let output_path = required_argument(argument(&arguments, 3), program.as_str())?;
        reject_extra(argument(&arguments, 4), program.as_str())?;
        Ok(Command::EncodeProof { proof_path, output_path })
    } else {
        Err(usage(program.as_str()))
    }
}

} // verus!
