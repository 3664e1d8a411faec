//! State behind the application's QML objects.

use vstd::prelude::*;

verus! {

/// The state of the demonstration object: a number and a text.
pub struct MyObject {
    number: i32,
    string: String,
}

impl MyObject {
    /// The number.
    pub closed spec fn number_spec(&self) -> i32 {
        self.number
    }

    /// The text.
    pub closed spec fn string_spec(&self) -> Seq<char> {
        self.string@
    }

    /// An object holding zero and the empty text.
    pub fn new() -> (r: MyObject)
        ensures
            r.number_spec() == 0,
            r.string_spec() == Seq::<char>::empty(),
    {
        MyObject { number: 0, string: String::new() }
    }

    /// The number.
    pub fn number(&self) -> (r: i32)
        ensures
            r == self.number_spec(),
    {
        self.number
    }

    /// The text.
    pub fn string(&self) -> (r: &String)
        ensures
            r@ == self.string_spec(),
    {
        &self.string
    }

    /// Replaces the number.
    pub fn set_number(&mut self, number: i32)
        ensures
            final(self).number_spec() == number,
            final(self).string_spec() == old(self).string_spec(),
    {
        self.number = number;
    }

    /// Adds one to the number.
    pub fn increment_number(&mut self)
        requires
            old(self).number_spec() < i32::MAX,
        ensures
            final(self).number_spec() == old(self).number_spec() + 1,
            final(self).string_spec() == old(self).string_spec(),
    {
        let previous = self.number();
        self.set_number(previous + 1);
    }
}

/// The state of the login window: the homeserver that was picked.
pub struct LoginWindowRust {
    pub homeserver: String,
}

/// The pages of the application.
#[derive(Clone, Copy, Debug, PartialEq, Eq, Structural)]
pub enum RachatPages {
    Root,
    SelectHomeserver,
    Login,
}

/// The QML resource of each page.
pub open spec fn page_url(p: RachatPages) -> Seq<char> {
    match p {
        RachatPages::Root => "qrc:/qt/qml/rs/chir/rachat/qml/root.qml"@,
        RachatPages::SelectHomeserver => "qrc:/qt/qml/rs/chir/rachat/qml/select-homeserver.qml"@,
        RachatPages::Login => "qrc:/qt/qml/rs/chir/rachat/qml/login.qml"@,
    }
}

impl RachatPages {
    /// The QML resource of the page.
    pub fn as_ref(&self) -> (r: &'static str)
        ensures
            r@ == page_url(*self),
    {
        match *self {
            RachatPages::Root => "qrc:/qt/qml/rs/chir/rachat/qml/root.qml",
            RachatPages::SelectHomeserver => "qrc:/qt/qml/rs/chir/rachat/qml/select-homeserver.qml",
            RachatPages::Login => "qrc:/qt/qml/rs/chir/rachat/qml/login.qml",
        }
    }
}

} // verus!
