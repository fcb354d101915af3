//! Routes as they are kept between runs of the daemon.
use vstd::prelude::*;
use vstd::string::StringExecFns;
use vstd::utf8::*;
use crate::protocol;
use crate::protocol::{Message, Request, RequestView};
use crate::text;
use crate::text::{digits_text, joined};
use crate::textmap::TextMap;

verus! {

/// A route as it was asked for.
#[derive(Debug, Eq, PartialEq)]
pub struct SavedRoute {
    pub id: String,
    pub source: String,
    pub sink: String,
    pub gain_millidb: i32,
    pub matrix_millionths: Vec<i32>,
}

/// A saved route by its values.
#[verifier::ext_equal]
pub struct SavedRouteView {
    pub id: Seq<char>,
    pub source: Seq<char>,
    pub sink: Seq<char>,
    pub gain_millidb: i32,
    pub matrix_millionths: Seq<i32>,
}

impl View for SavedRoute {
    type V = SavedRouteView;

    open spec fn view(&self) -> SavedRouteView {
        SavedRouteView {
            id: self.id@,
            source: self.source@,
            sink: self.sink@,
            gain_millidb: self.gain_millidb,
            matrix_millionths: self.matrix_millionths@,
        }
    }
}

impl Clone for SavedRoute {
    fn clone(&self) -> (copy: Self)
        ensures
            copy@ == self@,
    {
        let matrix_millionths = self.matrix_millionths.clone();
        assert(matrix_millionths@ =~= self.matrix_millionths@);
        SavedRoute {
            id: self.id.clone(),
            source: self.source.clone(),
            sink: self.sink.clone(),
            gain_millidb: self.gain_millidb,
            matrix_millionths,
        }
    }
}

impl SavedRouteView {
    /// The request that asks for the route.
    pub open spec fn request(self) -> RequestView {
        RequestView::Connect {
            id: self.id,
            source: self.source,
            sink: self.sink,
            gain_millidb: self.gain_millidb,
            matrix_millionths: self.matrix_millionths,
        }
    }

    /// The line that the route is saved as: the request that asks for it.
    pub open spec fn line(self) -> Seq<char> {
        decode_utf8(Request::wire(self.request()))
    }
}

impl SavedRoute {
    /// The line that the route is saved as.
    pub fn line(&self) -> (line: String)
        ensures
            line@ == self@.line(),
            encode_utf8(line@) == Request::wire(self@.request()),
    {
        let matrix_millionths = self.matrix_millionths.clone();
        assert(matrix_millionths@ =~= self.matrix_millionths@);
        let request = Request::Connect {
            id: self.id.clone(),
            source: self.source.clone(),
            sink: self.sink.clone(),
            gain_millidb: self.gain_millidb,
            matrix_millionths,
        };
        let line = request.encode();
        proof {
            encode_utf8_decode_utf8(line@);
        }
        line
    }
}

/// Saved routes by their values.
pub open spec fn saved_views(routes: Seq<SavedRoute>) -> Seq<SavedRouteView> {
    routes.map_values(|route: SavedRoute| route@)
}

/// The lines that routes are saved as.
pub open spec fn saved_lines(routes: Seq<SavedRouteView>) -> Seq<Seq<char>> {
    routes.map_values(|route: SavedRouteView| route.line())
}

/// Texts by their characters.
pub open spec fn texts(lines: Seq<String>) -> Seq<Seq<char>> {
    lines.map_values(|line: String| line@)
}

/// The lines that routes are saved as, in the order of the routes' names.
pub fn save_routes(routes: &TextMap<SavedRoute>) -> (lines: Vec<String>)
    ensures
        texts(lines@) == saved_lines(saved_views(routes.entries())),
{
    let listed = routes.values();
    let mut lines: Vec<String> = Vec::new();
    let mut i: usize = 0;
    while i < listed.len()
        invariant
            i <= listed@.len(),
            lines@.len() == i,
            forall|k: int| 0 <= k < i ==> (#[trigger] lines@[k])@ == listed@[k]@.line(),
        decreases listed.len() - i,
    {
        lines.push(listed[i].line());
        i = i + 1;
    }
    assert(texts(lines@) =~= saved_lines(saved_views(listed@)));
    lines
}

/// Where a line stands: the name of the file and the number of the line.
pub open spec fn line_mark(path: Seq<char>, number: nat) -> Seq<char> {
    path + ":"@ + text::digits(number) + ": "@
}

/// The routes that lines stand for, by their names, or what is wrong with the first line that
/// stands for none. Empty lines are passed over.
pub open spec fn loaded(path: Seq<char>, lines: Seq<Seq<char>>) -> Result<
    Map<Seq<char>, SavedRouteView>,
    Seq<char>,
>
    decreases lines.len(),
{
    if lines.len() == 0 {
        Ok(Map::empty())
    } else {
        match loaded(path, lines.drop_last()) {
            Err(message) => Err(message),
            Ok(routes) => with_line(path, lines.len(), routes, lines.last()),
        }
    }
}

/// The routes with the one that a line stands for, or what is wrong with the line.
pub open spec fn with_line(
    path: Seq<char>,
    number: nat,
    routes: Map<Seq<char>, SavedRouteView>,
    line: Seq<char>,
) -> Result<Map<Seq<char>, SavedRouteView>, Seq<char>> {
    let mark = line_mark(path, number);
    if line.len() == 0 {
        Ok(routes)
    } else {
        match Request::parsed(encode_utf8(line)) {
            Err(error) => Err(mark + error.text()),
            Ok(RequestView::Connect { id, source, sink, gain_millidb, matrix_millionths }) => {
                if routes.contains_key(id) {
                    Err(mark + "duplicate route "@ + id)
                } else {
                    Ok(
                        routes.insert(
                            id,
                            SavedRouteView { id, source, sink, gain_millidb, matrix_millionths },
                        ),
                    )
                }
            },
            Ok(_) => Err(mark + "state contains a non-route command"@),
        }
    }
}

/// Routes under their names, by their values.
pub open spec fn named_views(routes: Map<Seq<char>, SavedRoute>) -> Map<
    Seq<char>,
    SavedRouteView,
> {
    routes.map_values(|route: SavedRoute| route@)
}

/// Every route stands under its own name.
pub open spec fn self_named(routes: Map<Seq<char>, SavedRoute>) -> bool {
    forall|name: Seq<char>| #[trigger]
        routes.contains_key(name) ==> routes[name]@.id == name
}

/// What is wrong with the first lines is wrong with all of them.
proof fn lemma_loaded_prefix(path: Seq<char>, lines: Seq<Seq<char>>, n: int)
    requires
        0 <= n <= lines.len(),
        loaded(path, lines.take(n)) is Err,
    ensures
        loaded(path, lines) == loaded(path, lines.take(n)),
    decreases lines.len(),
{
    if n == lines.len() {
        assert(lines.take(n) =~= lines);
    } else {
        assert(lines.drop_last().take(n) =~= lines.take(n));
        lemma_loaded_prefix(path, lines.drop_last(), n);
    }
}

/// A message about a line.
fn about_line(path: &str, number: u64, complaint: &str) -> (message: String)
    ensures
        message@ == line_mark(path@, number as nat) + complaint@,
{
    let mut message = joined(path, ":");
    message.append(digits_text(number).as_str());
    message.append(": ");
    message.append(complaint);
    message
}

/// Adds the route that a line stands for.
fn load_line(path: &str, number: u64, routes: &mut TextMap<SavedRoute>, line: &str) -> (result:
    Result<(), String>)
    requires
        old(routes).wf(),
        self_named(old(routes)@),
    ensures
        final(routes).wf(),
        self_named(final(routes)@),
        match result {
            Ok(()) => with_line(path@, number as nat, named_views(old(routes)@), line@) == Ok::<
                Map<Seq<char>, SavedRouteView>,
                Seq<char>,
            >(named_views(final(routes)@)),
            Err(message) => with_line(path@, number as nat, named_views(old(routes)@), line@)
                == Err::<Map<Seq<char>, SavedRouteView>, Seq<char>>(message@),
        },
{
    if line.as_bytes().len() == 0 {
        proof {
            assert(encode_utf8(line@).len() == 0);
            encode_utf8_decode_utf8(line@);
            encode_utf8_decode_utf8(Seq::<char>::empty());
            assert(encode_utf8(line@) =~= encode_utf8(Seq::<char>::empty()));
        }
        return Ok(());
    }
    proof {
        if line@.len() == 0 {
            assert(encode_utf8(line@).len() == 0);
        }
    }
    let request = match Request::decode(line) {
        Ok(request) => request,
        Err(error) => {
            return Err(about_line(path, number, error.text().as_str()));
        },
    };
    match request {
        Request::Connect { id, source, sink, gain_millidb, matrix_millionths } => {
            if routes.contains_key(id.as_str()) {
                let complaint = joined("duplicate route ", id.as_str());
                let message = about_line(path, number, complaint.as_str());
                assert(message@ =~= line_mark(path@, number as nat) + "duplicate route "@ + id@);
                return Err(message);
            }
            let route = SavedRoute {
                id: id.clone(),
                source,
                sink,
                gain_millidb,
                matrix_millionths,
            };
            let ghost before = routes@;
            let _ = routes.insert(id, route);
            assert(named_views(routes@) =~= named_views(before).insert(id@, route@));
            Ok(())
        },
        _ => Err(about_line(path, number, "state contains a non-route command")),
    }
}

/// Reads saved routes back. `path` is the name of the file that the lines come from.
pub fn load_routes(path: &str, lines: &Vec<String>) -> (result: Result<TextMap<SavedRoute>, String>)
    ensures
        match result {
            Ok(routes) => {
                &&& routes.wf()
                &&& self_named(routes@)
                &&& loaded(path@, texts(lines@)) == Ok::<
                    Map<Seq<char>, SavedRouteView>,
                    Seq<char>,
                >(named_views(routes@))
            },
            Err(message) => loaded(path@, texts(lines@)) == Err::<
                Map<Seq<char>, SavedRouteView>,
                Seq<char>,
            >(message@),
        },
{
    let mut routes: TextMap<SavedRoute> = TextMap::new();
    let mut i: usize = 0;
    proof {
        assert(texts(lines@).take(0) =~= Seq::<Seq<char>>::empty());
        assert(named_views(routes@) =~= Map::<Seq<char>, SavedRouteView>::empty());
    }
    while i < lines.len()
        invariant
            i <= lines@.len(),
            routes.wf(),
            self_named(routes@),
            loaded(path@, texts(lines@).take(i as int)) == Ok::<
                Map<Seq<char>, SavedRouteView>,
                Seq<char>,
            >(named_views(routes@)),
        decreases lines.len() - i,
    {
        proof {
            assert(texts(lines@).take(i + 1).drop_last() =~= texts(lines@).take(i as int));
            assert(texts(lines@).take(i + 1).last() == lines@[i as int]@);
        }
        if let Err(message) = load_line(path, i as u64 + 1, &mut routes, lines[i].as_str()) {
            proof {
                lemma_loaded_prefix(path@, texts(lines@), i + 1);
            }
            return Err(message);
        }
        i = i + 1;
    }
    assert(texts(lines@).take(i as int) =~= texts(lines@));
    Ok(routes)
}

/// The routes under their names; the later of two with the same name.
pub open spec fn by_name(routes: Seq<SavedRouteView>) -> Map<Seq<char>, SavedRouteView>
    decreases routes.len(),
{
    if routes.len() == 0 {
        Map::empty()
    } else {
        by_name(routes.drop_last()).insert(routes.last().id, routes.last())
    }
}

/// The names of routes are those routes' names.
proof fn lemma_by_name(routes: Seq<SavedRouteView>, name: Seq<char>)
    ensures
        by_name(routes).contains_key(name) ==> exists|i: int|
            0 <= i < routes.len() && (#[trigger] routes[i]).id == name,
    decreases routes.len(),
{
    if routes.len() > 0 && by_name(routes).contains_key(name) {
        if routes.last().id == name {
            assert(routes[routes.len() - 1].id == name);
        } else {
            let shorter = routes.drop_last();
            lemma_by_name(shorter, name);
            let i = choose|i: int| 0 <= i < shorter.len() && (#[trigger] shorter[i]).id == name;
            assert(routes[i].id == name);
        }
    }
}

/// Loading gives back the routes that were saved.
pub proof fn saved_routes_load_back(path: Seq<char>, routes: Seq<SavedRouteView>)
    requires
        forall|i: int, j: int|
            0 <= i < j < routes.len() ==> (#[trigger] routes[i]).id != (#[trigger] routes[j]).id,
    ensures
        loaded(path, saved_lines(routes)) == Ok::<Map<Seq<char>, SavedRouteView>, Seq<char>>(
            by_name(routes),
        ),
    decreases routes.len(),
{
    if routes.len() > 0 {
        let shorter = routes.drop_last();
        let route = routes.last();
        let wire = Request::wire(route.request());
        saved_routes_load_back(path, shorter);
        assert(saved_lines(routes).drop_last() =~= saved_lines(shorter));
        assert(saved_lines(routes).last() == route.line());
        Request::decode_inverts_encode(route.request());
        Request::encoding_is_one_line(route.request());
        text::lemma_ascii_bytes(wire);
        decode_utf8_encode_utf8(wire);
        assert(encode_utf8(route.line()) == wire);
        assert(wire.len() > 0);
        if route.line().len() == 0 {
            assert(encode_utf8(route.line()).len() == 0);
        }
        if by_name(shorter).contains_key(route.id) {
            lemma_by_name(shorter, route.id);
            let i = choose|i: int|
                0 <= i < shorter.len() && (#[trigger] shorter[i]).id == route.id;
            assert(routes[i].id != routes[routes.len() - 1].id);
        }
    }
}

/// Each of several routes with different names stands under its name.
proof fn lemma_under_name(routes: Seq<SavedRouteView>, i: int)
    requires
        0 <= i < routes.len(),
        forall|i: int, j: int|
            0 <= i < j < routes.len() ==> (#[trigger] routes[i]).id != (#[trigger] routes[j]).id,
    ensures
        by_name(routes).contains_key(routes[i].id),
        by_name(routes)[routes[i].id] == routes[i],
    decreases routes.len(),
{
    if i < routes.len() - 1 {
        lemma_under_name(routes.drop_last(), i);
        assert(routes[i].id != routes[routes.len() - 1].id);
    }
}

/// Loading what a state was saved as gives the same routes under the same names.
pub proof fn saved_state_loads_back(path: Seq<char>, routes: TextMap<SavedRoute>)
    requires
        routes.wf(),
        self_named(routes@),
    ensures
        loaded(path, saved_lines(saved_views(routes.entries()))) == Ok::<
            Map<Seq<char>, SavedRouteView>,
            Seq<char>,
        >(named_views(routes@)),
{
    let views = saved_views(routes.entries());
    assert forall|i: int| 0 <= i < views.len() implies (#[trigger] views[i]).id
        == routes.names()[i] && routes@[routes.names()[i]]@ == views[i] && routes@.contains_key(
        routes.names()[i],
    ) by {
        routes.lemma_entry(i);
    }
    assert forall|i: int, j: int| 0 <= i < j < views.len() implies (#[trigger] views[i]).id != (
    #[trigger] views[j]).id by {
        if views[i].id == views[j].id {
            routes.lemma_distinct(i, j);
        }
    }
    saved_routes_load_back(path, views);
    assert forall|name: Seq<char>| by_name(views).contains_key(name) == routes@.contains_key(
        name,
    ) by {
        if by_name(views).contains_key(name) {
            lemma_by_name(views, name);
            let i = choose|i: int| 0 <= i < views.len() && (#[trigger] views[i]).id == name;
            assert(routes@.contains_key(routes.names()[i]));
        }
        if routes@.contains_key(name) {
            let i = routes.lemma_place(name);
            lemma_under_name(views, i);
        }
    }
    assert forall|name: Seq<char>| routes@.contains_key(name) implies by_name(views)[name]
        == named_views(routes@)[name] by {
        let i = routes.lemma_place(name);
        lemma_under_name(views, i);
    }
    assert(by_name(views) =~= named_views(routes@));
}

} // verus!
