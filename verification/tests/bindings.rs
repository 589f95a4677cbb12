use joy::artifacts::STATE_EXECUTION_FORMAT;
use joy::bindings::{private_binding, state_context, PRIVATE_BINDING_TAG};

fn streamed(parts: &[&[u8]]) -> [u8; 32] {
    let mut hasher = cyber_hemera::Hasher::new();
    for part in parts {
        hasher.update(part);
    }
    *hasher.finalize().as_bytes()
}

#[test]
fn state_context_frames_program_and_source_hash() {
    let program = "[0 1]";
    let source = "abc";
    let expected = streamed(&[
        STATE_EXECUTION_FORMAT.as_bytes(),
        &(program.len() as u64).to_le_bytes(),
        program.as_bytes(),
        &(source.len() as u64).to_le_bytes(),
        source.as_bytes(),
    ]);
    assert_eq!(state_context(program, source), expected);
    assert_ne!(state_context("[0 1]a", "bc"), expected);
    assert_ne!(state_context(source, program), expected);
}

#[test]
fn private_binding_frames_statement_flags_and_state() {
    let transcript = [7u8, 8, 9];
    let expected = streamed(&[
        PRIVATE_BINDING_TAG.as_bytes(),
        &3u64.to_le_bytes(),
        &transcript,
        &2u64.to_le_bytes(),
        b"s1",
        &5u64.to_le_bytes(),
        b"[1 2]",
        &[1, 0],
    ]);
    assert_eq!(private_binding(&transcript, "s1", "[1 2]", true, None), expected);
    assert_ne!(private_binding(&transcript, "s1", "[1 2]", false, None), expected);
    let with_state = streamed(&[
        PRIVATE_BINDING_TAG.as_bytes(),
        &3u64.to_le_bytes(),
        &transcript,
        &2u64.to_le_bytes(),
        b"s1",
        &5u64.to_le_bytes(),
        b"[1 2]",
        &[0, 1],
        &[4, 4, 4],
    ]);
    assert_eq!(private_binding(&transcript, "s1", "[1 2]", false, Some(&[4, 4, 4])), with_state);
}
