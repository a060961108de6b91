//! A list of the sizes of boxes, kept for a report.
use crate::annotation::Object;
use vstd::prelude::*;

verus! {

/// The size of one box, with the file of its image.
#[derive(Debug, PartialEq, Eq)]
pub struct BndboxItem {
    pub img_filename: String,
    pub width: u32,
    pub height: u32,
}

/// Gathers the sizes of boxes for a report to the file `csv_filename`. Without a file
/// name the reporter keeps nothing.
pub struct BndboxItemReporter {
    csv_filename: Option<String>,
    items: Option<Vec<BndboxItem>>,
}

impl BndboxItemReporter {
    /// The file that the report goes to, if any.
    pub closed spec fn target(&self) -> Option<String> {
        self.csv_filename
    }

    /// The items kept so far; none where there is no file to report to.
    pub closed spec fn kept(&self) -> Option<Seq<BndboxItem>> {
        match self.items {
            None => None,
            Some(items) => Some(items@),
        }
    }

    /// Reporter becomes a no-op if `csv_filename` is None.
    pub fn new(csv_filename: Option<String>) -> (reporter: Self)
        ensures
            reporter.target() == csv_filename,
            reporter.kept() == match csv_filename {
                Some(_) => Some(Seq::<BndboxItem>::empty()),
                None => None,
            },
    {
        match csv_filename {
            Some(filename) => Self { csv_filename: Some(filename), items: Some(Vec::new()) },
            None => Self { csv_filename: None, items: None },
        }
    }

    /// Keeps the size of the box of `object`, if there is a file to report to.
    pub fn add_item(&mut self, img_filename: String, object: &Object)
        requires
            object.bndbox.ordered(),
        ensures
            final(self).target() == old(self).target(),
            final(self).kept() == match old(self).kept() {
                None => None,
                Some(items) => Some(
                    items.push(
                        BndboxItem {
                            img_filename,
                            width: (object.bndbox.xmax - object.bndbox.xmin) as u32,
                            height: (object.bndbox.ymax - object.bndbox.ymin) as u32,
                        },
                    ),
                ),
            },
    {
        let item = BndboxItem {
            img_filename,
            width: object.bndbox.width(),
            height: object.bndbox.height(),
        };
        match &mut self.items {
            Some(items) => {
                items.push(item);
            },
            None => {},
        }
    }

    /// The file that the report goes to, if any.
    pub fn csv_filename(&self) -> (name: &Option<String>)
        ensures
            *name == self.target(),
    {
        &self.csv_filename
    }

    /// The items kept so far.
    pub fn items(&self) -> (items: &Option<Vec<BndboxItem>>)
        ensures
            match *items {
                None => self.kept() is None,
                Some(list) => self.kept() == Some(list@),
            },
    {
        &self.items
    }
}

} // verus!
