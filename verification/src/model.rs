//! Typed projections of `MultiModel.xml` and LinkModel XML documents.

use vstd::prelude::*;

verus! {

/// One extensible metadata item from an MMC `MetaData` collection.
#[derive(Debug, Clone, PartialEq, Eq)]
pub struct MetadataEntry {
    pub key: String,
    pub value: String,
    pub value_type: Option<String>,
    pub category: Option<String>,
}

impl Default for MetadataEntry {
    fn default() -> (m: Self)
        ensures
            m.key@ == Seq::<char>::empty(),
            m.value@ == Seq::<char>::empty(),
            m.value_type is None,
            m.category is None,
    {
        MetadataEntry { key: String::new(), value: String::new(), value_type: None, category: None }
    }
}

/// Metadata carried by the MMC `MultiModel` root. The container UUID is held
/// as its 128-bit value.
#[derive(Debug, Clone, PartialEq, Eq)]
pub struct ContainerMetadata {
    pub uuid: u128,
    pub format_version: String,
    pub mm_domain: Option<String>,
    pub metadata: Vec<MetadataEntry>,
}

impl Default for ContainerMetadata {
    /// The nil UUID, format version `2.0.0`, no domain and no metadata.
    fn default() -> (m: Self)
        ensures
            m.uuid == 0,
            m.format_version@ == "2.0.0"@,
            m.mm_domain is None,
            m.metadata@.len() == 0,
    {
        ContainerMetadata {
            uuid: 0,
            format_version: "2.0.0".to_owned(),
            mm_domain: None,
            metadata: Vec::new(),
        }
    }
}

/// An embedded relative archive path or a container-external absolute IRI.
#[derive(Debug, Clone, PartialEq, Eq)]
pub enum ResourceLocation {
    Embedded(String),
    External(String),
}

impl Default for ResourceLocation {
    fn default() -> (l: Self)
        ensures
            l matches ResourceLocation::Embedded(p) && p@.len() == 0,
    {
        ResourceLocation::Embedded(String::new())
    }
}

impl ResourceLocation {
    /// The archive path of an embedded location.
    pub fn embedded_path(&self) -> (r: Option<&str>)
        ensures
            self matches ResourceLocation::Embedded(p) ==> r matches Some(s) && s@ == p@,
            self is External ==> r is None,
    {
        match self {
            ResourceLocation::Embedded(path) => Some(path.as_str()),
            ResourceLocation::External(_) => None,
        }
    }

    /// The IRI of an external location.
    pub fn external_uri(&self) -> (r: Option<&str>)
        ensures
            self matches ResourceLocation::External(u) ==> r matches Some(s) && s@ == u@,
            self is Embedded ==> r is None,
    {
        match self {
            ResourceLocation::External(uri) => Some(uri.as_str()),
            ResourceLocation::Embedded(_) => None,
        }
    }
}

/// One physical data resource for a representation of an application model.
#[derive(Debug, Clone, PartialEq, Eq)]
pub struct DataResource {
    pub id: String,
    pub location: ResourceLocation,
    pub metadata: Vec<MetadataEntry>,
}

impl Default for DataResource {
    fn default() -> (r: Self)
        ensures
            r.id@.len() == 0,
            r.location matches ResourceLocation::Embedded(p) && p@.len() == 0,
            r.metadata@.len() == 0,
    {
        DataResource { id: String::new(), location: ResourceLocation::default(), metadata: Vec::new() }
    }
}

/// One data-format representation of an application model.
#[derive(Debug, Clone, PartialEq, Eq)]
pub struct ModelData {
    pub id: String,
    pub format_type: String,
    pub format_version: Option<String>,
    pub metadata: Vec<MetadataEntry>,
    pub resources: Vec<DataResource>,
}

impl Default for ModelData {
    fn default() -> (d: Self)
        ensures
            d.id@.len() == 0,
            d.format_type@.len() == 0,
            d.format_version is None,
            d.metadata@.len() == 0,
            d.resources@.len() == 0,
    {
        ModelData {
            id: String::new(),
            format_type: String::new(),
            format_version: None,
            metadata: Vec::new(),
            resources: Vec::new(),
        }
    }
}

/// Typed projection of an MMC application-model declaration.
#[derive(Debug, Clone, PartialEq, Eq)]
pub struct ApplicationModel {
    pub id: String,
    pub model_type: String,
    pub metadata: Vec<MetadataEntry>,
    pub representations: Vec<ModelData>,
}

impl Default for ApplicationModel {
    fn default() -> (m: Self)
        ensures
            m.id@.len() == 0,
            m.model_type@.len() == 0,
            m.metadata@.len() == 0,
            m.representations@.len() == 0,
    {
        ApplicationModel {
            id: String::new(),
            model_type: String::new(),
            metadata: Vec::new(),
            representations: Vec::new(),
        }
    }
}

/// Reference to an external or bundled LinkModel XML document.
#[derive(Debug, Clone, PartialEq, Eq)]
pub struct LinkModelReference {
    pub location: ResourceLocation,
    pub linked_models: Vec<String>,
    pub metadata: Vec<MetadataEntry>,
}

impl Default for LinkModelReference {
    fn default() -> (r: Self)
        ensures
            r.location matches ResourceLocation::Embedded(p) && p@.len() == 0,
            r.linked_models@.len() == 0,
            r.metadata@.len() == 0,
    {
        LinkModelReference {
            location: ResourceLocation::default(),
            linked_models: Vec::new(),
            metadata: Vec::new(),
        }
    }
}

/// Lossless source plus typed MMC container projection.
#[derive(Debug, Clone, PartialEq, Eq)]
pub struct MultiModel {
    pub metadata: ContainerMetadata,
    pub models: Vec<ApplicationModel>,
    pub link_models: Vec<LinkModelReference>,
    pub source: Vec<u8>,
}

impl MultiModel {
    /// The source bytes of the projection.
    pub open spec fn spec_source(&self) -> Seq<u8> {
        self.source@
    }

    /// Assembles a projection from its parts and its exact source bytes.
    pub(crate) fn assemble(
        metadata: ContainerMetadata,
        models: Vec<ApplicationModel>,
        link_models: Vec<LinkModelReference>,
        source: Vec<u8>,
    ) -> (m: Self)
        ensures
            m.metadata == metadata,
            m.models == models,
            m.link_models == link_models,
            m.spec_source() == source@,
    {
        MultiModel { metadata, models, link_models, source }
    }

    /// The exact `MultiModel.xml` bytes this projection was parsed from.
    pub fn source_bytes(&self) -> (r: &[u8])
        ensures
            r@ == self.spec_source(),
    {
        self.source.as_slice()
    }
}

/// Optional weight or qualification attached to one relatum.
#[derive(Debug, Clone, PartialEq, Eq)]
pub struct Rate {
    pub rate_type: String,
    pub value: String,
    pub target_model: String,
}

impl Default for Rate {
    fn default() -> (r: Self)
        ensures
            r.rate_type@.len() == 0,
            r.value@.len() == 0,
            r.target_model@.len() == 0,
    {
        Rate { rate_type: String::new(), value: String::new(), target_model: String::new() }
    }
}

/// One application-model element participating in an n-ary link.
#[derive(Debug, Clone, PartialEq, Eq)]
pub struct Relatum {
    pub element_id: String,
    pub model_id: String,
    pub format_id: Option<String>,
    pub resource_id: Option<String>,
    pub metadata: Vec<MetadataEntry>,
    pub rates: Vec<Rate>,
}

impl Default for Relatum {
    fn default() -> (r: Self)
        ensures
            r.element_id@.len() == 0,
            r.model_id@.len() == 0,
            r.format_id is None,
            r.resource_id is None,
            r.metadata@.len() == 0,
            r.rates@.len() == 0,
    {
        Relatum {
            element_id: String::new(),
            model_id: String::new(),
            format_id: None,
            resource_id: None,
            metadata: Vec::new(),
            rates: Vec::new(),
        }
    }
}

/// One n-ary relation between elements from at least two application models.
#[derive(Debug, Clone, PartialEq, Eq)]
pub struct Link {
    pub metadata: Vec<MetadataEntry>,
    pub relata: Vec<Relatum>,
}

impl Default for Link {
    fn default() -> (l: Self)
        ensures
            l.metadata@.len() == 0,
            l.relata@.len() == 0,
    {
        Link { metadata: Vec::new(), relata: Vec::new() }
    }
}

/// Typed projection of one MMC 2.0 LinkModel XML document.
#[derive(Debug, Clone, PartialEq, Eq)]
pub struct LinkModel {
    pub format_version: String,
    pub metadata: Vec<MetadataEntry>,
    pub links: Vec<Link>,
}

impl Default for LinkModel {
    /// Format version `2.0.0`, no metadata and no links.
    fn default() -> (m: Self)
        ensures
            m.format_version@ == "2.0.0"@,
            m.metadata@.len() == 0,
            m.links@.len() == 0,
    {
        LinkModel { format_version: "2.0.0".to_owned(), metadata: Vec::new(), links: Vec::new() }
    }
}

/// A parsed LinkModel tied to its exact archive source entry.
#[derive(Debug, Clone, PartialEq, Eq)]
pub struct LinkModelDocument {
    pub(crate) path: String,
    pub(crate) source: Vec<u8>,
    pub(crate) model: LinkModel,
}

impl LinkModelDocument {
    pub closed spec fn spec_path(&self) -> Seq<char> {
        self.path@
    }

    pub closed spec fn spec_source(&self) -> Seq<u8> {
        self.source@
    }

    pub closed spec fn spec_model(&self) -> LinkModel {
        self.model
    }

    /// Ties a parsed LinkModel to its archive path and exact source bytes.
    pub(crate) fn assemble(path: String, source: Vec<u8>, model: LinkModel) -> (d: Self)
        ensures
            d.spec_path() == path@,
            d.spec_source() == source@,
            d.spec_model() == model,
    {
        LinkModelDocument { path, source, model }
    }

    /// The archive path of the LinkModel entry.
    pub fn path(&self) -> (r: &str)
        ensures
            r@ == self.spec_path(),
    {
        self.path.as_str()
    }

    /// The exact bytes of the LinkModel entry.
    pub fn source_bytes(&self) -> (r: &[u8])
        ensures
            r@ == self.spec_source(),
    {
        self.source.as_slice()
    }

    /// The typed projection of the entry.
    pub fn model(&self) -> (r: &LinkModel)
        ensures
            *r == self.spec_model(),
    {
        &self.model
    }
}


/// The mathematical value of a metadata item.
pub struct MetadataView {
    pub key: Seq<char>,
    pub value: Seq<char>,
    pub value_type: Option<Seq<char>>,
    pub category: Option<Seq<char>>,
}

/// The characters of an optional string.
pub open spec fn opt_view(o: Option<String>) -> Option<Seq<char>> {
    match o {
        Some(s) => Some(s@),
        None => None,
    }
}

impl View for MetadataEntry {
    type V = MetadataView;

    open spec fn view(&self) -> MetadataView {
        MetadataView {
            key: self.key@,
            value: self.value@,
            value_type: opt_view(self.value_type),
            category: opt_view(self.category),
        }
    }
}

pub open spec fn metadata_views(s: Seq<MetadataEntry>) -> Seq<MetadataView> {
    s.map_values(|m: MetadataEntry| m@)
}

pub open spec fn text_views(s: Seq<String>) -> Seq<Seq<char>> {
    s.map_values(|t: String| t@)
}

pub open spec fn resource_views(s: Seq<DataResource>) -> Seq<DataResourceView> {
    s.map_values(|r: DataResource| r@)
}

pub open spec fn representation_views(s: Seq<ModelData>) -> Seq<ModelDataView> {
    s.map_values(|d: ModelData| d@)
}

pub open spec fn app_model_views(s: Seq<ApplicationModel>) -> Seq<ApplicationModelView> {
    s.map_values(|m: ApplicationModel| m@)
}

pub open spec fn reference_views(s: Seq<LinkModelReference>) -> Seq<LinkModelReferenceView> {
    s.map_values(|r: LinkModelReference| r@)
}

pub open spec fn rate_views(s: Seq<Rate>) -> Seq<RateView> {
    s.map_values(|r: Rate| r@)
}

pub open spec fn relatum_views(s: Seq<Relatum>) -> Seq<RelatumView> {
    s.map_values(|r: Relatum| r@)
}

pub open spec fn link_views(s: Seq<Link>) -> Seq<LinkView> {
    s.map_values(|l: Link| l@)
}

/// The mathematical value of a resource location.
pub enum LocationView {
    Embedded(Seq<char>),
    External(Seq<char>),
}

impl View for ResourceLocation {
    type V = LocationView;

    open spec fn view(&self) -> LocationView {
        match self {
            ResourceLocation::Embedded(p) => LocationView::Embedded(p@),
            ResourceLocation::External(u) => LocationView::External(u@),
        }
    }
}

pub struct DataResourceView {
    pub id: Seq<char>,
    pub location: LocationView,
    pub metadata: Seq<MetadataView>,
}

impl View for DataResource {
    type V = DataResourceView;

    open spec fn view(&self) -> DataResourceView {
        DataResourceView { id: self.id@, location: self.location@, metadata: metadata_views(self.metadata@) }
    }
}

pub struct ModelDataView {
    pub id: Seq<char>,
    pub format_type: Seq<char>,
    pub format_version: Option<Seq<char>>,
    pub metadata: Seq<MetadataView>,
    pub resources: Seq<DataResourceView>,
}

impl View for ModelData {
    type V = ModelDataView;

    open spec fn view(&self) -> ModelDataView {
        ModelDataView {
            id: self.id@,
            format_type: self.format_type@,
            format_version: opt_view(self.format_version),
            metadata: metadata_views(self.metadata@),
            resources: resource_views(self.resources@),
        }
    }
}

pub struct ApplicationModelView {
    pub id: Seq<char>,
    pub model_type: Seq<char>,
    pub metadata: Seq<MetadataView>,
    pub representations: Seq<ModelDataView>,
}

impl View for ApplicationModel {
    type V = ApplicationModelView;

    open spec fn view(&self) -> ApplicationModelView {
        ApplicationModelView {
            id: self.id@,
            model_type: self.model_type@,
            metadata: metadata_views(self.metadata@),
            representations: representation_views(self.representations@),
        }
    }
}

pub struct LinkModelReferenceView {
    pub location: LocationView,
    pub linked_models: Seq<Seq<char>>,
    pub metadata: Seq<MetadataView>,
}

impl View for LinkModelReference {
    type V = LinkModelReferenceView;

    open spec fn view(&self) -> LinkModelReferenceView {
        LinkModelReferenceView {
            location: self.location@,
            linked_models: text_views(self.linked_models@),
            metadata: metadata_views(self.metadata@),
        }
    }
}

pub struct ContainerMetadataView {
    pub uuid: u128,
    pub format_version: Seq<char>,
    pub mm_domain: Option<Seq<char>>,
    pub metadata: Seq<MetadataView>,
}

impl View for ContainerMetadata {
    type V = ContainerMetadataView;

    open spec fn view(&self) -> ContainerMetadataView {
        ContainerMetadataView {
            uuid: self.uuid,
            format_version: self.format_version@,
            mm_domain: opt_view(self.mm_domain),
            metadata: metadata_views(self.metadata@),
        }
    }
}

pub struct MultiModelView {
    pub metadata: ContainerMetadataView,
    pub models: Seq<ApplicationModelView>,
    pub link_models: Seq<LinkModelReferenceView>,
    pub source: Seq<u8>,
}

impl View for MultiModel {
    type V = MultiModelView;

    open spec fn view(&self) -> MultiModelView {
        MultiModelView {
            metadata: self.metadata@,
            models: app_model_views(self.models@),
            link_models: reference_views(self.link_models@),
            source: self.source@,
        }
    }
}

pub struct RateView {
    pub rate_type: Seq<char>,
    pub value: Seq<char>,
    pub target_model: Seq<char>,
}

impl View for Rate {
    type V = RateView;

    open spec fn view(&self) -> RateView {
        RateView { rate_type: self.rate_type@, value: self.value@, target_model: self.target_model@ }
    }
}

pub struct RelatumView {
    pub element_id: Seq<char>,
    pub model_id: Seq<char>,
    pub format_id: Option<Seq<char>>,
    pub resource_id: Option<Seq<char>>,
    pub metadata: Seq<MetadataView>,
    pub rates: Seq<RateView>,
}

impl View for Relatum {
    type V = RelatumView;

    open spec fn view(&self) -> RelatumView {
        RelatumView {
            element_id: self.element_id@,
            model_id: self.model_id@,
            format_id: opt_view(self.format_id),
            resource_id: opt_view(self.resource_id),
            metadata: metadata_views(self.metadata@),
            rates: rate_views(self.rates@),
        }
    }
}

pub struct LinkView {
    pub metadata: Seq<MetadataView>,
    pub relata: Seq<RelatumView>,
}

impl View for Link {
    type V = LinkView;

    open spec fn view(&self) -> LinkView {
        LinkView { metadata: metadata_views(self.metadata@), relata: relatum_views(self.relata@) }
    }
}

pub struct LinkModelView {
    pub format_version: Seq<char>,
    pub metadata: Seq<MetadataView>,
    pub links: Seq<LinkView>,
}

impl View for LinkModel {
    type V = LinkModelView;

    open spec fn view(&self) -> LinkModelView {
        LinkModelView {
            format_version: self.format_version@,
            metadata: metadata_views(self.metadata@),
            links: link_views(self.links@),
        }
    }
}

} // verus!
