//! Names of container images and the tags they are pinned to.
use vstd::prelude::*;

verus! {

/// An image's name, with the user that publishes it where there is one.
#[derive(Debug, PartialEq, Eq)]
pub struct ImageName {
    pub user: Option<String>,
    pub image: String,
}

/// The text of an image name: `user/image`, or `image` alone.
pub open spec fn image_name_text(user: Option<Seq<char>>, image: Seq<char>) -> Seq<char> {
    match user {
        Some(u) => u + seq!['/'] + image,
        None => image,
    }
}

impl Clone for ImageName {
    fn clone(&self) -> (r: ImageName)
        ensures
            r == *self,
    {
        let user = match &self.user {
            Some(u) => Some(u.clone()),
            None => None,
        };
        ImageName { user, image: self.image.clone() }
    }
}

impl ImageName {
    pub fn new(user: Option<String>, image: String) -> (r: ImageName)
        ensures
            r.user == user,
            r.image == image,
    {
        ImageName { user, image }
    }

    pub open spec fn text(&self) -> Seq<char> {
        image_name_text(
            match self.user {
                Some(u) => Some(u@),
                None => None,
            },
            self.image@,
        )
    }

    /// The name as it is written, `user/image` or `image`.
    pub fn to_string(&self) -> (r: String)
        ensures
            r@ == self.text(),
    {
        match &self.user {
            Some(u) => {
                proof {
                    reveal_strlit("/");
                }
                let with_slash = u.clone().concat("/");
                with_slash.concat(self.image.as_str())
            },
            None => self.image.clone(),
        }
    }

    pub open spec fn same_name(self, other: ImageName) -> bool {
        self.image@ == other.image@ && match (self.user, other.user) {
            (Some(a), Some(b)) => a@ == b@,
            (None, None) => true,
            _ => false,
        }
    }

    /// Whether both name the same image.
    pub fn same_as(&self, other: &ImageName) -> (r: bool)
        ensures
            r == self.same_name(*other),
    {
        let users = match (&self.user, &other.user) {
            (Some(a), Some(b)) => a.eq(b),
            (None, None) => true,
            _ => false,
        };
        users && self.image.eq(&other.image)
    }
}

/// An image pinned to a tag.
#[derive(Debug, Clone, PartialEq, Eq)]
pub struct Image {
    pub name: ImageName,
    pub tag: String,
}

} // verus!
