use motd::printer::{MessagePrinter, PrintAction, PrinterConfig, DEFAULT_IMG_HEIGHT};
use motd::seeker::Entry;

fn printer(debug: bool) -> MessagePrinter {
    MessagePrinter::new(PrinterConfig { debug, img_height: None, img_width: None })
}

fn entry(msg: &str) -> Entry {
    Entry { msg: msg.to_string(), line_number: 4 }
}

#[test]
fn text_and_images_in_order() {
    let actions = printer(false).process_entry(entry("  hi [cat.png] there [dog.png]"));
    let shown: Vec<String> = actions
        .iter()
        .map(|a| match a {
            PrintAction::Text(t) => format!("text:{}", t),
            PrintAction::Image(p) => format!("image:{}", p),
            PrintAction::ParseFailure { .. } => "failure".to_string(),
        })
        .collect();
    assert_eq!(shown, vec!["text:hi", "image:cat.png", "text:there", "image:dog.png"]);
}

#[test]
fn failure_is_silent_without_debug() {
    assert!(printer(false).process_entry(entry("a]b")).is_empty());
}

#[test]
fn failure_is_reported_in_debug() {
    let actions = printer(true).process_entry(entry("[abc"));
    assert_eq!(actions.len(), 1);
    match &actions[0] {
        PrintAction::ParseFailure { line_number, message } => {
            assert_eq!(*line_number, 4);
            assert_eq!(message, "Unexpected end of message, ensure references are closed");
        }
        _ => panic!("expected a failure report"),
    }
}

#[test]
fn image_height_defaults() {
    assert_eq!(printer(false).image_height(), DEFAULT_IMG_HEIGHT);
    let p = MessagePrinter::new(PrinterConfig { debug: false, img_height: Some(3), img_width: None });
    assert_eq!(p.image_height(), 3);
    assert!(!p.get_config().debug);
}
