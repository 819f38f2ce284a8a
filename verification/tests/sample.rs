use json_shape::document::infer_declarations_from_text;

const SAMPLE: &str = r#"
{
  "user": {
    "id": 12345,
    "name": "John Doe",
    "email": "john.doe@example.com",
    "isActive": true,
    "profile": {
      "age": 30,
      "address": {
        "street": "123 Main St",
        "city": "Anytown",
        "state": "CA",
        "postalCode": "12345",
        "coordinates": {
          "latitude": 34.052235,
          "longitude": -118.243683
        }
      },
      "phoneNumbers": [
        {
          "type": "home",
          "number": "555-555-5555"
        },
        {
          "type": "work",
          "number": "555-555-1234"
        }
      ],
      "socialMedia": {
        "twitter": "@johndoe",
        "facebook": null,
        "linkedin": "https://www.linkedin.com/in/johndoe"
      }
    },
    "preferences": {
      "notifications": {
        "email": true,
        "sms": false
      },
      "theme": "dark",
      "language": "en-US"
    },
    "roles": ["admin", "editor"],
    "createdAt": "2023-05-27T12:34:56Z",
    "lastLogin": "2024-05-25T08:00:00Z"
  },
  "products": [
    {
      "id": "prod-001",
      "name": "Laptop",
      "description": "A high-end laptop for professionals",
      "price": 1499.99,
      "currency": "USD",
      "availability": "in stock",
      "ratings": {
        "average": 4.5,
        "reviews": 120
      },
      "categories": ["electronics", "computers"],
      "tags": ["laptop", "high-end", "professional"],
      "discount": {
        "percentage": 10,
        "validUntil": "2024-06-01T00:00:00Z"
      }
    },
    {
      "id": "prod-002",
      "name": "Smartphone",
      "description": "A smartphone with a great camera",
      "price": 799.99,
      "currency": "USD",
      "availability": "pre-order",
      "ratings": {
        "average": 4.7,
        "reviews": 230
      },
      "categories": ["electronics", "mobile"],
      "tags": ["smartphone", "camera", "high-end"],
      "discount": null
    }
  ],
  "orders": [
    {
      "orderId": "order-001",
      "userId": 12345,
      "productIds": ["prod-001", "prod-002"],
      "orderDate": "2024-05-26T14:22:00Z",
      "status": "shipped",
      "totalAmount": 2199.98,
      "currency": "USD",
      "payment": {
        "method": "credit card",
        "transactionId": "txn-789",
        "billingAddress": {
          "street": "123 Main St",
          "city": "Anytown",
          "state": "CA",
          "postalCode": "12345"
        }
      }
    }
  ],
  "settings": {
    "siteTitle": "My E-commerce Site",
    "adminEmail": "admin@example.com",
    "features": {
      "enableReviews": true,
      "enableWishlist": false,
      "enableMultiCurrency": true,
      "supportedCurrencies": ["USD", "EUR", "GBP"]
    }
  }
}
    "#;

fn declaration<'a>(out: &'a [(String, String)], name: &str) -> &'a str {
    match out.iter().find(|(n, _)| n == name) {
        Some((_, text)) => text,
        None => panic!("{} is not declared", name),
    }
}

#[test]
fn shop_document_declares_every_nested_type_once() {
    let out = infer_declarations_from_text("Root", SAMPLE).unwrap();
    let names: Vec<&str> = out.iter().map(|(name, _)| name.as_str()).collect();
    assert_eq!(
        names,
        vec![
            "CoordinatesData",
            "AddressData",
            "PhoneNumbersData",
            "SocialMediaData",
            "ProfileData",
            "NotificationsData",
            "PreferencesData",
            "UserData",
            "RatingsData",
            "DiscountData",
            "ProductsData",
            "BillingAddressData",
            "PaymentData",
            "OrdersData",
            "FeaturesData",
            "SettingsData",
            "Root",
        ]
    );
}

#[test]
fn shop_document_declarations_read_as_expected() {
    let out = infer_declarations_from_text("Root", SAMPLE).unwrap();
    assert_eq!(
        declaration(&out, "Root"),
        "type Root = {\n    user: UserData;\n    products: ProductsData[];\n    orders: OrdersData[];\n    settings: SettingsData;\n}"
    );
    assert_eq!(
        declaration(&out, "UserData"),
        "type UserData = {\n    id: number;\n    name: string;\n    email: string;\n    isActive: boolean;\n    profile: ProfileData;\n    preferences: PreferencesData;\n    roles: string[];\n    createdAt: string;\n    lastLogin: string;\n}"
    );
    assert_eq!(
        declaration(&out, "SocialMediaData"),
        "type SocialMediaData = {\n    twitter: string;\n    facebook?: any;\n    linkedin: string;\n}"
    );
    assert_eq!(
        declaration(&out, "PhoneNumbersData"),
        "type PhoneNumbersData = {\n    type: string;\n    number: string;\n}"
    );
    assert_eq!(
        declaration(&out, "ProductsData"),
        "type ProductsData = {\n    id: string;\n    name: string;\n    description: string;\n    price: number;\n    currency: string;\n    availability: string;\n    ratings: RatingsData;\n    categories: string[];\n    tags: string[];\n    discount?: DiscountData;\n}"
    );
    assert_eq!(
        declaration(&out, "CoordinatesData"),
        "type CoordinatesData = {\n    latitude: number;\n    longitude: number;\n}"
    );
}
