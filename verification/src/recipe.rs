//! Recipes: named lists of commands.

use vstd::prelude::*;
use vstd::string::*;

use crate::expression::{Expression, ExpressionView};
use crate::text::{join_strings, joined_by, names, show_spaced, spaced, string_views};
use crate::token::{all_tokens, token_views, Token, TokenView};

verus! {

/// A recipe.
#[derive(PartialEq, Debug)]
pub struct Recipe<'a> {
    pub line_number: usize,
    pub name: &'a str,
    /// The lines as they are written.
    pub lines: Vec<Vec<Fragment<'a>>>,
    /// The lines with their interpolations evaluated.
    pub evaluated_lines: Vec<String>,
    pub dependencies: Vec<&'a str>,
    pub dependency_tokens: Vec<Token<'a>>,
    pub arguments: Vec<&'a str>,
    pub argument_tokens: Vec<Token<'a>>,
    /// Whether the lines are a script, which says by what it is to be run.
    pub shebang: bool,
}

/// A piece of a line: text, or an interpolation.
#[derive(PartialEq, Debug)]
pub enum Fragment<'a> {
    Text { text: Token<'a> },
    Expression { expression: Expression<'a> },
}

/// The view of a [`Recipe`].
#[verifier::ext_equal]
pub struct RecipeView {
    pub line_number: nat,
    pub name: Seq<char>,
    pub lines: Seq<Seq<FragmentView>>,
    pub evaluated_lines: Seq<Seq<char>>,
    pub dependencies: Seq<Seq<char>>,
    pub dependency_tokens: Seq<TokenView>,
    pub arguments: Seq<Seq<char>>,
    pub argument_tokens: Seq<TokenView>,
    pub shebang: bool,
}

/// The view of a [`Fragment`].
#[verifier::ext_equal]
pub enum FragmentView {
    Text { text: TokenView },
    Expression { expression: ExpressionView },
}

impl<'a> View for Fragment<'a> {
    type V = FragmentView;

    open spec fn view(&self) -> FragmentView {
        match *self {
            Fragment::Text { text } => FragmentView::Text { text: text@ },
            Fragment::Expression { expression } => FragmentView::Expression {
                expression: expression@,
            },
        }
    }
}

/// The views of the pieces of a line.
pub open spec fn fragment_views(fragments: Seq<Fragment<'_>>) -> Seq<FragmentView> {
    fragments.map_values(|f: Fragment| f@)
}

/// The views of the pieces of lines.
pub open spec fn line_views(lines: Seq<Vec<Fragment<'_>>>) -> Seq<Seq<FragmentView>> {
    lines.map_values(|l: Vec<Fragment>| fragment_views(l@))
}

/// Whether `p` holds of the tokens of the variables in a line.
pub open spec fn line_all(line: Seq<FragmentView>, p: spec_fn(TokenView) -> bool) -> bool {
    forall|i: int|
        0 <= i < line.len() ==> ((#[trigger] line[i]) matches FragmentView::Expression {
            expression,
        } ==> expression.all(p))
}

/// Whether `p` holds of the tokens of the variables in lines.
pub open spec fn lines_all(lines: Seq<Seq<FragmentView>>, p: spec_fn(TokenView) -> bool) -> bool {
    forall|i: int| 0 <= i < lines.len() ==> line_all(#[trigger] lines[i], p)
}

impl RecipeView {
    /// Whether `p` holds of the tokens of the recipe's arguments, dependencies and variables.
    pub open spec fn all(self, p: spec_fn(TokenView) -> bool) -> bool {
        &&& all_tokens(self.argument_tokens, p)
        &&& all_tokens(self.dependency_tokens, p)
        &&& lines_all(self.lines, p)
    }
}

impl<'a> View for Recipe<'a> {
    type V = RecipeView;

    open spec fn view(&self) -> RecipeView {
        RecipeView {
            line_number: self.line_number as nat,
            name: self.name@,
            lines: line_views(self.lines@),
            evaluated_lines: string_views(self.evaluated_lines@),
            dependencies: names(self.dependencies@),
            dependency_tokens: token_views(self.dependency_tokens@),
            arguments: names(self.arguments@),
            argument_tokens: token_views(self.argument_tokens@),
            shebang: self.shebang,
        }
    }
}

impl FragmentView {
    /// The piece as it is written.
    pub open spec fn shown(self) -> Seq<char> {
        match self {
            FragmentView::Text { text } => text.lexeme,
            FragmentView::Expression { expression } => "{{"@ + expression.shown() + "}}"@,
        }
    }
}

/// The pieces of a line as they are written.
pub open spec fn pieces_shown(pieces: Seq<FragmentView>) -> Seq<char>
    decreases pieces.len(),
{
    if pieces.len() == 0 {
        Seq::empty()
    } else {
        pieces_shown(pieces.drop_last()) + pieces.last().shown()
    }
}

/// A line as it is written, indented by four spaces if there is anything on it.
pub open spec fn line_shown(pieces: Seq<FragmentView>) -> Seq<char> {
    if pieces.len() == 0 {
        Seq::empty()
    } else {
        "    "@ + pieces_shown(pieces)
    }
}

/// Lines as they are written.
pub open spec fn lines_shown(lines: Seq<Seq<FragmentView>>) -> Seq<Seq<char>> {
    lines.map_values(|l: Seq<FragmentView>| line_shown(l))
}

impl RecipeView {
    /// The recipe as it is written: its name, arguments, a colon, its dependencies, and its lines.
    pub open spec fn shown(self) -> Seq<char> {
        let head = self.name + spaced(self.arguments) + ":"@ + spaced(self.dependencies);
        if self.lines.len() == 0 {
            head
        } else {
            head + "\n"@ + joined_by(lines_shown(self.lines), "\n"@)
        }
    }
}

impl<'a> Fragment<'a> {
    /// The piece as it is written.
    pub fn to_string(&self) -> (r: String)
        ensures
            r@ == self@.shown(),
    {
        match self {
            Fragment::Text { text } => String::from_str(text.lexeme),
            Fragment::Expression { expression } => {
                let mut shown: String = String::from_str("{{");
                let inner: String = expression.to_string();
                shown.append(inner.as_str());
                shown.append("}}");
                shown
            },
        }
    }
}

/// A line as it is written, indented by four spaces if there is anything on it.
fn show_line(pieces: &Vec<Fragment<'_>>) -> (r: String)
    ensures
        r@ == line_shown(fragment_views(pieces@)),
{
    let ghost all = fragment_views(pieces@);
    if pieces.len() == 0 {
        return String::new();
    }
    let mut shown: String = String::from_str("    ");
    let mut i: usize = 0;
    proof {
        assert(shown@ =~= "    "@ + pieces_shown(all.take(0)));
    }
    while i < pieces.len()
        invariant
            i <= pieces@.len(),
            all == fragment_views(pieces@),
            shown@ == "    "@ + pieces_shown(all.take(i as int)),
        decreases pieces@.len() - i,
    {
        let piece: String = pieces[i].to_string();
        let ghost had = shown@;
        shown.append(piece.as_str());
        i += 1;
        proof {
            let was = all.take(i - 1);
            assert(all.take(i as int).drop_last() =~= was);
            assert(all.take(i as int).last() == pieces@[i - 1]@);
            assert(shown@ =~= "    "@ + (pieces_shown(was) + piece@));
        }
    }
    proof {
        assert(all.take(i as int) =~= all);
    }
    shown
}

impl<'a> Recipe<'a> {
    /// The recipe as it is written.
    pub fn to_string(&self) -> (r: String)
        ensures
            r@ == self@.shown(),
    {
        let mut shown: String = String::from_str(self.name);
        let arguments: String = show_spaced(&self.arguments);
        let dependencies: String = show_spaced(&self.dependencies);
        shown.append(arguments.as_str());
        shown.append(":");
        shown.append(dependencies.as_str());
        if self.lines.len() == 0 {
            return shown;
        }
        let ghost views = line_views(self.lines@);
        let mut lines: Vec<String> = Vec::new();
        let mut i: usize = 0;
        while i < self.lines.len()
            invariant
                i <= self.lines@.len(),
                views == line_views(self.lines@),
                string_views(lines@) == lines_shown(views).take(i as int),
            decreases self.lines@.len() - i,
        {
            let ghost had = string_views(lines@);
            let line: String = show_line(&self.lines[i]);
            let ghost view = line@;
            lines.push(line);
            i += 1;
            proof {
                assert(views[i - 1] == fragment_views(self.lines@[i - 1]@));
                assert(string_views(lines@) =~= had.push(view));
                assert(string_views(lines@) =~= lines_shown(views).take(i as int));
            }
        }
        proof {
            assert(string_views(lines@) =~= lines_shown(views));
        }
        let body: String = join_strings(&lines, "\n");
        shown.append("\n");
        shown.append(body.as_str());
        shown
    }
}

} // verus!
