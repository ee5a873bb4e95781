use risp::diagram::{CommandBlock, Component, Diagram, Mode};

fn block(command: &str) -> CommandBlock {
    CommandBlock {
        mode: Mode::CommandBlockImpulse,
        command: command.to_string(),
        needs_redstone: false,
        conditional: false,
        name: String::new(),
        execute_on_first_tick: false,
        tick_delay: 0,
        should_track_output: false,
    }
}

#[test]
fn block_text() {
    assert_eq!(block("say hi").to_text(), "{say hi}");
}

#[test]
fn diagram_text_rows() {
    let d = Diagram {
        unit: vec![
            Component { chains: vec![None, None, Some(block("say Hello World!"))], height: 0 },
            Component { chains: vec![Some(block("a")), None], height: 1 },
            Component { chains: vec![], height: 0 },
        ],
    };
    assert_eq!(d.to_text(), "{}{}{say Hello World!}\n{a}{}\n\n");
}

#[test]
fn empty_diagram_text() {
    assert_eq!(Diagram { unit: vec![] }.to_text(), "");
}
