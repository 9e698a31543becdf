//! The data that the library reads links into and exports from.

pub mod exporter;
pub mod processor;

pub use processor::{
    DetailsView, FilterOptions, FilterView, GeoIpInfo, GeoIpView, ParseProxyTypeError, Proxy,
    ProxyDetails, ProxyType, ProxyView, RealitySettings, RealityView, TlsSettings, TlsView,
    TransportSettings, TransportView,
};
