//! Launchable applications and the records they are made from.
use vstd::prelude::*;
use crate::text::{clone_opt, clone_strings, opt_view, str_views};

verus! {

/// A launchable application.
#[derive(Debug, Clone)]
pub struct App {
    pub name: String,
    pub command: String,
    pub icon: Option<String>,
    pub description: Option<String>,
    pub keywords: Vec<String>,
    pub terminal: bool,
}

/// A user-defined application from the configuration.
#[derive(Debug, Clone)]
pub struct CustomApp {
    pub name: String,
    pub command: String,
    pub icon: Option<String>,
    pub keywords: Vec<String>,
}

/// The fields of one desktop entry file that the catalog consumes.
#[derive(Debug, Clone)]
pub struct DesktopRecord {
    pub no_display: bool,
    pub hidden: bool,
    pub command: Option<String>,
    pub name: Option<String>,
    pub icon: Option<String>,
    pub comment: Option<String>,
    pub keywords: Vec<String>,
    pub terminal: bool,
}

/// What an application holds, as character sequences.
pub struct AppModel {
    pub name: Seq<char>,
    pub command: Seq<char>,
    pub icon: Option<Seq<char>>,
    pub description: Option<Seq<char>>,
    pub keywords: Seq<Seq<char>>,
    pub terminal: bool,
}

impl View for App {
    type V = AppModel;

    open spec fn view(&self) -> AppModel {
        AppModel {
            name: self.name@,
            command: self.command@,
            icon: opt_view(self.icon),
            description: opt_view(self.description),
            keywords: str_views(self.keywords@),
            terminal: self.terminal,
        }
    }
}

/// Each keyword preceded by a single space, in order.
pub open spec fn spaced(kws: Seq<Seq<char>>) -> Seq<char>
    decreases kws.len(),
{
    if kws.len() == 0 {
        Seq::empty()
    } else {
        spaced(kws.drop_last()) + seq![' '] + kws.last()
    }
}

/// The name, then the description and each keyword, each after a space.
pub open spec fn search_text_of(
    name: Seq<char>,
    description: Option<Seq<char>>,
    kws: Seq<Seq<char>>,
) -> Seq<char> {
    let head = match description {
        Some(d) => name + seq![' '] + d,
        None => name,
    };
    head + spaced(kws)
}

/// The name followed by each keyword, each after a space.
pub open spec fn name_keywords_of(name: Seq<char>, kws: Seq<Seq<char>>) -> Seq<char> {
    name + spaced(kws)
}

/// Appends each keyword, after a space, to `text`.
pub fn push_keywords(text: &mut String, kws: &Vec<String>)
    ensures
        final(text)@ == old(text)@ + spaced(str_views(kws@)),
{
    let ghost start = text@;
    let mut i: usize = 0;
    proof {
        reveal_strlit(" ");
        assert(str_views(kws@).subrange(0, 0) =~= Seq::<Seq<char>>::empty());
        assert(start + Seq::<char>::empty() =~= start);
    }
    while i < kws.len()
        invariant
            i <= kws@.len(),
            text@ == start + spaced(str_views(kws@).subrange(0, i as int)),
        decreases kws@.len() - i,
    {
        proof {
            reveal_strlit(" ");
        }
        text.append(" ");
        text.append(kws[i].as_str());
        proof {
            let ws = str_views(kws@).subrange(0, i + 1);
            assert(ws.drop_last() =~= str_views(kws@).subrange(0, i as int));
            assert(ws.last() == kws@[i as int]@);
            assert(text@ =~= start + spaced(ws));
        }
        i = i + 1;
    }
    assert(str_views(kws@).subrange(0, kws@.len() as int) =~= str_views(kws@));
}

/// The application a custom entry stands for.
pub open spec fn custom_model(c: CustomApp) -> AppModel {
    AppModel {
        name: c.name@,
        command: c.command@,
        icon: opt_view(c.icon),
        description: None,
        keywords: str_views(c.keywords@),
        terminal: false,
    }
}

/// The application a desktop record stands for, where it has a name and a
/// command.
pub open spec fn record_model(rec: DesktopRecord) -> AppModel {
    AppModel {
        name: opt_view(rec.name)->0,
        command: opt_view(rec.command)->0,
        icon: opt_view(rec.icon),
        description: opt_view(rec.comment),
        keywords: str_views(rec.keywords@),
        terminal: rec.terminal,
    }
}

impl App {
    /// An application made from a configured custom entry: no description,
    /// never run in a terminal.
    pub fn from_custom(custom: &CustomApp) -> (r: App)
        ensures
            r@ == custom_model(*custom),
    {
        App {
            name: custom.name.clone(),
            command: custom.command.clone(),
            icon: clone_opt(&custom.icon),
            description: None,
            keywords: clone_strings(&custom.keywords),
            terminal: false,
        }
    }

    /// The name, description and keywords, separated by spaces.
    pub fn search_text(&self) -> (r: String)
        ensures
            r@ == search_text_of(self.name@, opt_view(self.description), str_views(self.keywords@)),
    {
        let mut text = self.name.clone();
        if let Some(desc) = &self.description {
            proof {
                reveal_strlit(" ");
            }
            text.append(" ");
            text.append(desc.as_str());
        }
        push_keywords(&mut text, &self.keywords);
        text
    }
}

} // verus!
