//! What showing an entry amounts to: the text runs and images to put out, in order.
use vstd::prelude::*;

use crate::parse::{parse_message, parse_spec, Token, TokenView};
use crate::seeker::Entry;
use crate::text::{trim_str, trimmed};

verus! {

/// Height, in terminal rows, of an image when none is configured.
pub const DEFAULT_IMG_HEIGHT: u32 = 8;

/// How entries are shown.
#[derive(Clone, Copy, Debug)]
pub struct PrinterConfig {
    /// Report entries that fail to tokenize instead of skipping them silently.
    pub debug: bool,
    /// Height of images in terminal rows.
    pub img_height: Option<u32>,
    /// Width of images in terminal columns; by default the aspect ratio decides.
    pub img_width: Option<u32>,
}

/// One thing to put out while showing an entry.
#[derive(Debug)]
pub enum PrintAction {
    /// A line of text, already trimmed.
    Text(String),
    /// The image at this path, or a placeholder where it cannot be shown.
    Image(String),
    /// The entry starting on this line failed to tokenize with this message.
    ParseFailure { line_number: u64, message: String },
}

pub enum PrintActionView {
    Text(Seq<char>),
    Image(Seq<char>),
    ParseFailure { line_number: u64, message: Seq<char> },
}

impl View for PrintAction {
    type V = PrintActionView;

    open spec fn view(&self) -> PrintActionView {
        match self {
            PrintAction::Text(s) => PrintActionView::Text(s@),
            PrintAction::Image(s) => PrintActionView::Image(s@),
            PrintAction::ParseFailure { line_number, message } => PrintActionView::ParseFailure {
                line_number: *line_number,
                message: message@,
            },
        }
    }
}

/// The actions that show `toks`: each non-empty text run trimmed, each
/// resource as an image.
pub open spec fn token_actions(toks: Seq<TokenView>) -> Seq<PrintActionView>
    decreases toks.len(),
{
    if toks.len() == 0 {
        seq![]
    } else {
        token_actions(toks.drop_last()) + match toks.last() {
            TokenView::Text(t) => if t.len() > 0 {
                seq![PrintActionView::Text(trimmed(t))]
            } else {
                seq![]
            },
            TokenView::Resource(p) => seq![PrintActionView::Image(p)],
        }
    }
}

/// Shows entries according to a configuration.
pub struct MessagePrinter {
    config: PrinterConfig,
}

impl MessagePrinter {
    pub closed spec fn config(&self) -> PrinterConfig {
        self.config
    }

    pub fn new(config: PrinterConfig) -> (r: MessagePrinter)
        ensures
            r.config() == config,
    {
        MessagePrinter { config }
    }

    /// The configuration in use.
    pub fn get_config(&self) -> (r: PrinterConfig)
        ensures
            r == self.config(),
    {
        self.config
    }

    /// The height of images: the configured one, else the default.
    pub fn image_height(&self) -> (r: u32)
        ensures
            r == match self.config().img_height {
                Some(h) => h,
                None => DEFAULT_IMG_HEIGHT,
            },
    {
        match self.config.img_height {
            Some(h) => h,
            None => DEFAULT_IMG_HEIGHT,
        }
    }

    /// What showing `entry` puts out. An entry that fails to tokenize shows
    /// nothing; in debug mode it yields one report of the failure instead.
    pub fn process_entry(&self, entry: Entry) -> (r: Vec<PrintAction>)
        ensures
            match parse_spec(entry.msg@) {
                Ok(toks) => r@.map_values(|a: PrintAction| a@) == token_actions(toks),
                Err(e) => if self.config().debug {
                    r@.len() == 1 && r@[0]@ == PrintActionView::ParseFailure {
                        line_number: entry.line_number,
                        message: crate::parse::error_text(e),
                    }
                } else {
                    r@.len() == 0
                },
            },
    {
        let tokens = match parse_message(entry.msg.as_str()) {
            Ok(t) => t,
            Err(e) => {
                let mut r: Vec<PrintAction> = Vec::new();
                if self.config.debug {
                    r.push(PrintAction::ParseFailure { line_number: entry.line_number, message: e.message() });
                }
                return r;
            },
        };
        let ghost toks = crate::parse::tokens_view(tokens@);
        let mut actions: Vec<PrintAction> = Vec::new();
        let mut i: usize = 0;
        proof {
            assert(actions@.map_values(|a: PrintAction| a@) =~= token_actions(toks.subrange(0, 0)));
        }
        while i < tokens.len()
            invariant
                i <= tokens@.len(),
                toks == crate::parse::tokens_view(tokens@),
                actions@.map_values(|a: PrintAction| a@) == token_actions(toks.subrange(0, i as int)),
            decreases tokens@.len() - i,
        {
            let ghost prev = actions@;
            proof {
                assert(toks.subrange(0, i + 1).drop_last() =~= toks.subrange(0, i as int));
                assert(toks.subrange(0, i + 1).last() == tokens@[i as int]@);
            }
            match &tokens[i] {
                Token::Text(t) => {
                    if !t.as_str().is_empty() {
                        actions.push(PrintAction::Text(trim_str(t.as_str()).to_owned()));
                    }
                },
                Token::Resource(p) => {
                    actions.push(PrintAction::Image(p.clone()));
                },
            }
            proof {
                assert(actions@.map_values(|a: PrintAction| a@) =~= prev.map_values(|a: PrintAction| a@)
                    + token_actions(toks.subrange(0, i + 1)).subrange(
                        token_actions(toks.subrange(0, i as int)).len() as int,
                        token_actions(toks.subrange(0, i + 1)).len() as int,
                    ));
            }
            i = i + 1;
        }
        proof {
            assert(toks.subrange(0, tokens@.len() as int) =~= toks);
        }
        actions
    }
}

} // verus!
