use parser::assign::AssignCommand;
use parser::command::{find_commmand_start, Command, Input};
use parser::error::ParseError;
use parser::grammar::GrammarKind;
use parser::relabel::{LabelDelta, RelabelCommand};

#[test]
fn errors_outside_command_are_fine() {
    let input =
        "haha\" unterminated quotes @bot modify labels: +bug. Terminating after the command";
    let mut input = Input::new(input, "bot");
    assert!(input.parse_command().is_ok());
}

#[test]
fn code_1() {
    let input = "`@bot modify labels: +bug.`";
    let mut input = Input::new(input, "bot");
    assert!(input.parse_command().is_none());
}

#[test]
fn code_2() {
    let input = "```
    @bot modify labels: +bug.
    ```";
    let mut input = Input::new(input, "bot");
    assert!(input.parse_command().is_none());
}

#[test]
fn move_input_along() {
    let input = "@bot modify labels: +bug. Afterwards, delete the world.";
    let mut input = Input::new(input, "bot");
    let parsed = input.parse_command();
    assert!(parsed.is_ok());
    assert_eq!(input.rest(), b" Afterwards, delete the world.".to_vec());
}

#[test]
fn move_input_along_1() {
    let input = "@bot modify labels\": +bug. Afterwards, delete the world.";
    let mut input = Input::new(input, "bot");
    assert!(input.parse_command().is_err());
    // don't move input along if parsing the command fails
    assert_eq!(input.position(), 0);
}

#[test]
fn relabel_deltas_are_parsed() {
    let mut input = Input::new("@bot modify labels: +bug, -needs-triage.", "bot");
    match input.parse_command() {
        Command::Relabel(Ok(RelabelCommand { deltas })) => {
            assert_eq!(
                deltas,
                vec![
                    LabelDelta::Add(b"bug".to_vec()),
                    LabelDelta::Remove(b"needs-triage".to_vec()),
                ]
            );
        }
        other => panic!("expected a successful relabel, got {:?}", other),
    }
}

#[test]
fn assign_user_is_parsed() {
    let mut input = Input::new("@bot assign to: alice. More prose follows", "bot");
    match input.parse_command() {
        Command::Assign(Ok(AssignCommand { user })) => {
            assert_eq!(user, b"alice".to_vec());
        }
        other => panic!("expected a successful assignment, got {:?}", other),
    }
    assert_eq!(input.rest(), b" More prose follows".to_vec());
}

#[test]
fn assign_without_filler_words() {
    let mut input = Input::new("@bot assign bob", "bot");
    match input.parse_command() {
        Command::Assign(Ok(AssignCommand { user })) => {
            assert_eq!(user, b"bob".to_vec());
        }
        other => panic!("expected a successful assignment, got {:?}", other),
    }
}

#[test]
fn unterminated_quote_inside_command() {
    let mut input = Input::new("@bot modify labels\": +bug.", "bot");
    match input.parse_command() {
        Command::Relabel(Err(ParseError::UnterminatedQuote)) => {}
        other => panic!("expected an unterminated-quote rejection, got {:?}", other),
    }
    assert_eq!(input.position(), 0);
}

#[test]
fn unsigned_label_is_rejected() {
    let mut input = Input::new("@bot modify labels: bug.", "bot");
    match input.parse_command() {
        Command::Relabel(Err(ParseError::InvalidLabel)) => {}
        other => panic!("expected an invalid-label rejection, got {:?}", other),
    }
    assert_eq!(input.position(), 0);
}

#[test]
fn empty_label_list_is_rejected() {
    let mut input = Input::new("@bot modify labels: .", "bot");
    match input.parse_command() {
        Command::Relabel(Err(ParseError::ExpectedLabel)) => {}
        other => panic!("expected an expected-label rejection, got {:?}", other),
    }
}

#[test]
fn missing_comma_between_labels_is_rejected() {
    let mut input = Input::new("@bot modify labels: +bug +other.", "bot");
    match input.parse_command() {
        Command::Relabel(Err(ParseError::ExpectedSeparator)) => {}
        other => panic!("expected an expected-separator rejection, got {:?}", other),
    }
}

#[test]
fn missing_assignee_is_rejected() {
    let mut input = Input::new("@bot assign to: .", "bot");
    match input.parse_command() {
        Command::Assign(Err(ParseError::ExpectedUser)) => {}
        other => panic!("expected an expected-user rejection, got {:?}", other),
    }
}

#[test]
fn trailing_word_after_assignee_is_rejected() {
    let mut input = Input::new("@bot assign alice bob.", "bot");
    match input.parse_command() {
        Command::Assign(Err(ParseError::ExpectedEnd)) => {}
        other => panic!("expected an expected-end rejection, got {:?}", other),
    }
    assert_eq!(input.position(), 0);
}

#[test]
fn duplicate_grammars_are_ambiguous() {
    let mut input = Input::with_grammars(
        "@bot modify labels: +bug.",
        "bot",
        vec![GrammarKind::Relabel, GrammarKind::Relabel],
    );
    let parsed = input.parse_command();
    assert!(parsed.is_ambiguous());
    assert!(parsed.is_err());
    assert!(!parsed.is_none());
    assert_eq!(input.position(), 0);
}

#[test]
fn unclaimed_marker_is_none() {
    let mut input = Input::new("@bot hello world", "bot");
    let parsed = input.parse_command();
    assert!(parsed.is_none());
    assert!(parsed.is_ok());
    assert_eq!(input.position(), 0);
}

#[test]
fn no_marker_is_none() {
    let mut input = Input::new("nothing to see here", "bot");
    assert!(input.parse_command().is_none());
}

#[test]
fn longer_word_is_not_the_marker() {
    let mut input = Input::new("@botfoo modify labels: +bug.", "bot");
    assert!(input.parse_command().is_none());
    assert_eq!(input.position(), 0);
}

#[test]
fn partly_quoted_marker_is_excluded() {
    let mut input = Input::new("`@bot` modify labels: +bug.", "bot");
    assert!(input.parse_command().is_none());
    assert_eq!(input.position(), 0);
}

#[test]
fn successive_commands_stream_out() {
    let text = "@bot modify labels: +a. and then @bot assign to: carol. done";
    let mut input = Input::new(text, "bot");
    match input.parse_command() {
        Command::Relabel(Ok(RelabelCommand { deltas })) => {
            assert_eq!(deltas, vec![LabelDelta::Add(b"a".to_vec())]);
        }
        other => panic!("expected a successful relabel, got {:?}", other),
    }
    match input.parse_command() {
        Command::Assign(Ok(AssignCommand { user })) => {
            assert_eq!(user, b"carol".to_vec());
        }
        other => panic!("expected a successful assignment, got {:?}", other),
    }
    assert!(input.parse_command().is_none());
    assert_eq!(input.rest(), b" done".to_vec());
}

#[test]
fn prefix_and_rest_reconstruct_the_text() {
    let text = "@bot modify labels: +bug. Afterwards, delete the world.";
    let mut input = Input::new(text, "bot");
    let before = input.position();
    assert_eq!(before, 0);
    input.parse_command();
    let cursor = input.position();
    let rebuilt = [&text.as_bytes()[..cursor], &input.rest()[..]].concat();
    assert_eq!(rebuilt, text.as_bytes());
}

#[test]
fn find_commmand_start_locates_the_marker() {
    assert_eq!(find_commmand_start("say @bot hello", "bot"), Some(4));
    assert_eq!(find_commmand_start("say nothing", "bot"), None);
    assert_eq!(find_commmand_start("@bot at the start", "bot"), Some(0));
}

#[test]
fn different_prefixes_same_command() {
    let mut plain = Input::new("@bot assign to: dana.", "bot");
    let mut noisy = Input::new("ha\" ( broken , prose @bot assign to: dana.", "bot");
    match (plain.parse_command(), noisy.parse_command()) {
        (Command::Assign(Ok(first)), Command::Assign(Ok(second))) => {
            assert_eq!(first, second);
        }
        other => panic!("expected two equal successful assignments, got {:?}", other),
    }
}
